use quirl::bfvm::{LoadError, VM};
use quirl::prog_state::ProgState;

#[test]
fn test_parse_invalid_symbols() {
    let in_str = r#"[]++++++++++[>>+>+>++++++[<<+<+++>>>-]<<<<-]
            "A*$";?@![#>>+<<]>[>>]<<<<[>++<[-]]>.>."#;
    let out_str = r#"[]++++++++++[>>+>+>++++++[<<+<+++>>>-]<<<<-][>>+<<]>[>>]<<<<[>++<[-]]>.>."#;
    let o_res: Vec<u8> = Vec::from(out_str);
    let (res, _jmp_tbl) = VM::parse(in_str).unwrap();
    assert_eq!(res, o_res);
}

#[test]
fn parse_refilter_is_identity() {
    // re-parsing an already filtered program changes nothing
    let src = "a +b[c-]d.,<>e";
    let (once, _) = VM::parse(src).unwrap();
    let as_text = String::from_utf8(once.clone()).unwrap();
    let (twice, _) = VM::parse(&as_text).unwrap();
    assert_eq!(once, twice);
}

#[test]
fn parse_jump_table_involutive() {
    // following a bracket's entry and then that entry's own entry leads back
    let (_, jt) = VM::parse("[[]]").unwrap();
    assert_eq!(jt, vec![3, 2, 1, 0]);
    let (_, jt2) = VM::parse("[-][.]").unwrap();
    assert_eq!(jt2, vec![2, 1, 0, 5, 4, 3]);
    for i in 0..jt2.len() {
        assert_eq!(jt2[jt2[i]], i);
    }
}

#[test]
fn parse_unmatched_open() {
    assert_eq!(VM::parse("[").unwrap_err(), LoadError::UnmatchedOpen);
    assert_eq!(VM::parse("++[>[-]").unwrap_err(), LoadError::UnmatchedOpen);
}

#[test]
fn parse_unmatched_close() {
    assert_eq!(VM::parse("]").unwrap_err(), LoadError::UnmatchedClose);
    assert_eq!(VM::parse("[-]+]").unwrap_err(), LoadError::UnmatchedClose);
}

#[test]
fn parse_close_reported_before_open() {
    // when both conditions occur, the unmatched close wins
    assert_eq!(VM::parse("][").unwrap_err(), LoadError::UnmatchedClose);
}

#[test]
fn prog_state_walk() {
    let mut ps = ProgState::new(vec![43, 46]);
    assert_eq!(ps.get_len(), 2);
    assert_eq!(ps.get_pp(), 0);
    assert_eq!(ps.get_val(), Some(43));
    ps.inc_pp();
    assert_eq!(ps.get_pp(), 1);
    assert_eq!(ps.get_val(), Some(46));
    ps.inc_pp();
    assert_eq!(ps.get_val(), None);
    ps.set_pp(0);
    assert_eq!(ps.get_val(), Some(43));
}
