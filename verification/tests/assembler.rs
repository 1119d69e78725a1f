use virtual_cpu::assembler::{
    assemble, read_register, read_value, validate_register, validate_value, AsmError, Tokens,
};
use virtual_cpu::isa::{COND_COPY, CONST, COPY, MEMORY_SIZE};
use virtual_cpu::names::NameMap;

fn chars(s: &str) -> Vec<char> {
    s.chars().collect()
}

fn image(source: &str) -> Vec<u8> {
    let img = assemble(source).expect("the program assembles");
    assert_eq!(img.len(), MEMORY_SIZE);
    img
}

#[test]
fn register_operands() {
    let mut t = Tokens::new("r3 r+7 r0007");
    assert_eq!(validate_register(&mut t, "add"), 3);
    assert_eq!(validate_register(&mut t, "add"), 7);
    assert_eq!(validate_register(&mut t, "add"), 7);
    assert!(t.is_empty());
}

#[test]
fn register_errors() {
    let mut t = Tokens::new("r8 x1 r r256 r-1");
    assert_eq!(read_register(&mut t, "sub"), Err(AsmError::RegisterTooBig));
    assert_eq!(
        read_register(&mut t, "sub"),
        Err(AsmError::NotARegister { instruction: chars("sub") })
    );
    assert_eq!(
        read_register(&mut t, "sub"),
        Err(AsmError::RegisterNotInteger { instruction: chars("sub") })
    );
    assert_eq!(
        read_register(&mut t, "sub"),
        Err(AsmError::RegisterNotInteger { instruction: chars("sub") })
    );
    assert_eq!(
        read_register(&mut t, "sub"),
        Err(AsmError::RegisterNotInteger { instruction: chars("sub") })
    );
    assert_eq!(
        read_register(&mut t, "sub"),
        Err(AsmError::MissingRegister { instruction: chars("sub") })
    );
}

#[test]
fn value_operands() {
    let labels: NameMap<u16> = NameMap::new();
    let mut waiting: NameMap<Vec<u16>> = NameMap::new();
    let mut t = Tokens::new("42 65535 -1 -32768 +5 -0 007");
    let expected = [42u16, 65535, 65535, 32768, 5, 0, 7];
    for e in expected {
        assert_eq!(validate_value(&mut t, 0, &labels, &mut waiting, "const"), e);
    }
    assert!(waiting.any_name().is_none());
}

#[test]
fn register_check_agrees_with_reader() {
    let mut checked = Tokens::new("r5 r6");
    let mut read = Tokens::new("r5 r6");
    assert_eq!(read_register(&mut checked, "copy"), Ok(validate_register(&mut read, "copy")));
    assert_eq!(checked.next(), read.next());
}

#[test]
fn value_errors() {
    let labels: NameMap<u16> = NameMap::new();
    let mut waiting: NameMap<Vec<u16>> = NameMap::new();
    let mut t = Tokens::new("65536 -32769 12a + -");
    for _ in 0..5 {
        assert_eq!(
            read_value(&mut t, 0, &labels, &mut waiting, "const"),
            Err(AsmError::ValueOutOfRange { instruction: chars("const") })
        );
    }
    assert_eq!(
        read_value(&mut t, 0, &labels, &mut waiting, "const"),
        Err(AsmError::MissingValue { instruction: chars("const") })
    );
}

#[test]
fn value_label_references() {
    let mut labels: NameMap<u16> = NameMap::new();
    assert!(!labels.insert(chars("known"), 1234));
    let mut waiting: NameMap<Vec<u16>> = NameMap::new();
    let mut t = Tokens::new(":known :later :later");
    assert_eq!(validate_value(&mut t, 10, &labels, &mut waiting, "const"), 1234);
    assert_eq!(validate_value(&mut t, 20, &labels, &mut waiting, "const"), 0);
    assert_eq!(validate_value(&mut t, 30, &labels, &mut waiting, "const"), 0);
    assert_eq!(waiting.get(&chars("later")), Some(&vec![20u16, 30]));
    assert_eq!(waiting.get(&chars("known")), None);
}

#[test]
fn tokens_split_on_unicode_white_space() {
    let mut t = Tokens::new("\u{3000}add\u{a0}r1\tr2\u{2028}r3  ");
    assert_eq!(t.next(), Some(chars("add")));
    assert_eq!(t.next(), Some(chars("r1")));
    assert_eq!(t.next(), Some(chars("r2")));
    assert_eq!(t.next(), Some(chars("r3")));
    assert_eq!(t.next(), None);
}

#[test]
fn assembles_a_program() {
    let img = image("# adds two numbers\n\nconst r0 5\nconst r1 7\n  add r2 r0 r1\nhalt\n");
    assert_eq!(&img[..9], &[8, 0, 5, 9, 0, 7, 18, 4, 0]);
    assert!(img[9..].iter().all(|b| *b == 0));
}

#[test]
fn encodes_every_instruction() {
    let img = image(
        "sub r1 r2 r3\nmult r4 r5 r6\ndiv r7 r0 r1\ncopy r1 r2\nload r3 r4\nstore r5 r6\ncond_copy r1 r2 non_zero r3\ncond_copy r0 r7 zero r1",
    );
    assert_eq!(
        &img[..16],
        &[25, 76, 36, 184, 47, 4, 49, 64, 59, 128, 69, 192, 73, 77, 72, 228]
    );
    assert_eq!(img[6], COPY << 3 | 1);
    assert_eq!(img[12], COND_COPY << 3 | 1);
}

#[test]
fn line_endings_and_blank_lines() {
    let img = image("halt\r\n\r\n   \t\nconst r1 258\r\n");
    assert_eq!(&img[..4], &[0, CONST << 3 | 1, 1, 2]);
}

#[test]
fn labels_resolve_forward_and_backward() {
    let img = image(":start\nhalt\nconst r1 :end\nconst r2 :start\n:end\nhalt");
    assert_eq!(&img[..8], &[0, 9, 0, 7, 10, 0, 0, 0]);
}

#[test]
fn label_at_end_of_memory_is_address_zero() {
    let mut source = String::new();
    for _ in 0..65535 {
        source.push_str("halt\n");
    }
    source.push_str("const r0 :end\n");
    let r = assemble(&source);
    assert_eq!(r, Err(AsmError::OutOfMemory));
    let mut source = String::new();
    source.push_str("const r0 :end\n");
    for _ in 0..65533 {
        source.push_str("halt\n");
    }
    source.push_str(":end\n");
    let img = image(&source);
    assert_eq!(&img[..3], &[8, 0, 0]);
}

#[test]
fn memory_fills_exactly() {
    let mut source = String::new();
    for _ in 0..65536 {
        source.push_str("halt\n");
    }
    assert!(assemble(&source).is_ok());
    source.push_str("halt\n");
    assert_eq!(assemble(&source), Err(AsmError::OutOfMemory));
}

#[test]
fn instruction_errors() {
    assert_eq!(
        assemble("foo r1"),
        Err(AsmError::UnknownInstruction { name: chars("foo") })
    );
    assert_eq!(
        assemble("halt now"),
        Err(AsmError::TrailingTokens { instruction: chars("halt"), token: chars("now") })
    );
    assert_eq!(
        assemble("const r1 1 2"),
        Err(AsmError::TrailingTokens { instruction: chars("const"), token: chars("2") })
    );
    assert_eq!(
        assemble("add r1 r2"),
        Err(AsmError::MissingRegister { instruction: chars("add") })
    );
    assert_eq!(
        assemble("load x1 r2"),
        Err(AsmError::NotARegister { instruction: chars("load") })
    );
    assert_eq!(assemble("store r1 r12"), Err(AsmError::RegisterTooBig));
    assert_eq!(
        assemble("copy r1 rr"),
        Err(AsmError::RegisterNotInteger { instruction: chars("copy") })
    );
    assert_eq!(
        assemble("const r1"),
        Err(AsmError::MissingValue { instruction: chars("const") })
    );
    assert_eq!(
        assemble("const r1 70000"),
        Err(AsmError::ValueOutOfRange { instruction: chars("const") })
    );
    assert_eq!(assemble("cond_copy r1 r2"), Err(AsmError::MissingCondFlag));
    assert_eq!(
        assemble("cond_copy r1 r2 positive r3"),
        Err(AsmError::UnknownCondFlag { flag: chars("positive") })
    );
}

#[test]
fn label_errors() {
    assert_eq!(
        assemble(":a\nhalt\n:a"),
        Err(AsmError::LabelRedefinition { name: chars("a") })
    );
    assert_eq!(
        assemble("const r0 :nowhere\nhalt"),
        Err(AsmError::UnresolvedLabel { name: chars("nowhere") })
    );
}

#[test]
fn unchecked_tails_are_ignored() {
    // `cond_copy` and labels do not look at what follows them.
    let img = image("cond_copy r1 r2 zero r3 extra\n:here and more\nhalt");
    assert_eq!(&img[..3], &[73, 76, 0]);
}

#[test]
fn comments_change_nothing() {
    assert_eq!(image("halt\n# add r1 r2 r3\n   #x"), image("halt"));
}
