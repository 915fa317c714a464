use fasttalk::block::Block;

fn text(s: &str) -> Block {
    Block::Text(s.chars().collect::<Vec<char>>())
}

#[test]
fn compare_same_and_different() {
    assert!(Block::compare(&Block::Bool(true), &Block::Bool(true)));
    assert!(!Block::compare(&Block::Bool(true), &Block::Bool(false)));
    assert!(Block::compare(&Block::Int(42), &Block::Int(42)));
    assert!(!Block::compare(&Block::Int(42), &Block::Int(43)));
    assert!(Block::compare(&Block::F32(0x3ECCCCCD), &Block::F32(0x3ECCCCCD)));
    assert!(!Block::compare(&Block::F32(0x3ECCCCCD), &Block::F32(0)));
    assert!(Block::compare(&text("hi"), &text("hi")));
    assert!(!Block::compare(&text("hi"), &text("ho")));
    assert!(!Block::compare(&text("hi"), &text("hi there")));
    // a boolean is not the number it travels as
    assert!(!Block::compare(&Block::Bool(true), &Block::Int(1)));
    assert!(!Block::compare(&Block::Int(0), &text("")));
}

#[test]
fn number_and_string_accessors() {
    assert!(Block::Int(5).is_number());
    assert!(Block::F32(1).is_number());
    assert!(!Block::Bool(true).is_number());
    assert!(!text("5").is_number());

    assert_eq!(Block::Int(-300).as_number(), -300);
    assert_eq!(Block::Bool(true).as_number(), 1);
    assert_eq!(Block::Bool(false).as_number(), 0);
    assert_eq!(Block::F32(0x42280000).as_f32_bits(), 0x42280000);

    assert!(text("x").is_string());
    assert!(!Block::Int(1).is_string());
    let t = text("abc");
    assert_eq!(t.as_string(), vec!['a', 'b', 'c']);
}
