use stackexpr::opcodes::{Opcode, Registry};
use stackexpr::text::{to_lowercase, trim};
use stackexpr::token::{Token, TokenType};

fn reg() -> Registry {
    let mut r = Registry::new();
    r.push(Opcode { name: String::from("ADD"), pops: 2, sign: Some(String::from("+")), output: None });
    r
}

#[test]
fn new_token_is_blank() {
    let t = Token::new();
    assert_eq!(t.value, "");
    assert_eq!(t.token_type, TokenType::Unknown);
    assert_eq!(t.operands.len(), 0);
    assert!(t.opcode.is_some());
}

#[test]
fn classify_constant() {
    let t = Token::from_string("0x1f", &reg());
    assert_eq!(t.token_type, TokenType::Constant);
    assert_eq!(t.value, "0x1f");
}

#[test]
fn classify_reference() {
    let t = Token::from_string("[0x40]", &reg());
    assert_eq!(t.token_type, TokenType::Reference);
}

#[test]
fn classify_variable() {
    let t = Token::from_string("<arg0", &reg());
    assert_eq!(t.token_type, TokenType::Variable);
}

#[test]
fn classify_function_marker() {
    let t = Token::from_string("_main", &reg());
    assert_eq!(t.token_type, TokenType::Function);
}

#[test]
fn classify_jump_label() {
    let t = Token::from_string("loop:", &reg());
    assert_eq!(t.token_type, TokenType::JumpLabel);
}

#[test]
fn classify_known_opcode() {
    let t = Token::from_string("ADD", &reg());
    assert_eq!(t.token_type, TokenType::Opcode);
    let op = t.opcode.unwrap();
    assert_eq!(op.name, "ADD");
    assert_eq!(op.pops, 2);
    assert_eq!(op.sign, Some(String::from("+")));
}

#[test]
fn classify_unknown_opcode_uses_sentinel() {
    let t = Token::from_string("FOO", &reg());
    assert_eq!(t.token_type, TokenType::Opcode);
    let op = t.opcode.unwrap();
    assert_eq!(op.name, "FOO");
    assert_eq!(op.pops, 0);
    assert!(op.sign.is_none());
    assert!(op.output.is_none());
}

#[test]
fn classification_trims_surrounding_whitespace() {
    let t = Token::from_string("  0x1\t\n", &reg());
    assert_eq!(t.token_type, TokenType::Constant);
    assert_eq!(t.value, "0x1");
}

#[test]
fn render_non_opcode_is_verbatim() {
    let t = Token::from_string("[0x40]", &reg());
    assert_eq!(t.to_str(false), "[0x40]");
}

#[test]
fn trim_edges() {
    assert_eq!(trim("  a b  "), "a b");
    assert_eq!(trim(""), "");
    assert_eq!(trim(" \t\r\n"), "");
    assert_eq!(trim("abc"), "abc");
}

#[test]
fn lowercase_maps_ascii_letters_only() {
    assert_eq!(to_lowercase("FooBAR9:"), "foobar9:");
    assert_eq!(to_lowercase(""), "");
}

#[test]
fn registry_lookup_returns_first_match() {
    let mut r = Registry::new();
    r.push(Opcode { name: String::from("X"), pops: 1, sign: None, output: None });
    r.push(Opcode { name: String::from("X"), pops: 9, sign: None, output: None });
    assert_eq!(r.lookup("X").pops, 1);
}

#[test]
fn set_operands_binds_from_top() {
    let r = reg();
    let mut add = Token::from_string("ADD", &r);
    let mut st = stackexpr::stack::Stack::new();
    st.push(Token::from_string("0x1", &r));
    st.push(Token::from_string("0x2", &r));
    add.set_operands(&st);
    assert_eq!(add.operands.len(), 2);
    assert_eq!(add.operands[0].value, "0x2");
    assert_eq!(add.operands[1].value, "0x1");
    assert_eq!(add.to_str(false), "0x2 + 0x1");
}

#[test]
fn registry_lookup_miss_is_total() {
    let r = Registry::new();
    let op = r.lookup("NOP");
    assert_eq!(op.name, "NOP");
    assert_eq!(op.pops, 0);
}
