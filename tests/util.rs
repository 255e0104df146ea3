use macho_util::util::{
    bswap16, bswap32, bswap64, bswap_from, from_cstr, shell_quote, trim_to_null, Endian, OptionExt, Swap, ToUi,
};

#[test]
fn test_branch() {
    for i in 0..2usize {
        let shown = if i == 1 {
            let (b, c) = (8usize, 9usize);
            format!("{}", b + c)
        } else {
            let (b, c) = (7isize, 8isize);
            format!("{}", b + c)
        };
        println!("{}", shown);
        assert_eq!(shown, if i == 1 { "17" } else { "15" });
    }
}

#[test]
fn bswap_reverses_bytes() {
    assert_eq!(bswap16(0x1234), 0x3412);
    assert_eq!(bswap32(0x1234_5678), 0x7856_3412);
    assert_eq!(bswap64(0x0102_0304_0506_0708), 0x0807_0605_0403_0201);
}

#[test]
fn swap_trait_and_byte_order() {
    let mut x: u32 = 0xfeed_face;
    x.bswap();
    assert_eq!(x, 0xcefa_edfe);
    let mut y: u16 = 0x00ff;
    bswap_from(&mut y, Endian::BigEndian);
    assert_eq!(y, 0xff00);
    let mut z: u16 = 0x00ff;
    bswap_from(&mut z, Endian::LittleEndian);
    assert_eq!(z, 0x00ff);
    assert_eq!(Endian::default(), Endian::BigEndian);
}

#[test]
fn to_ui_converts_like_as() {
    assert_eq!(7u32.to_ui(), 7usize);
    assert_eq!(300u16.to_ui(), 300usize);
    assert_eq!((-1i32).to_ui(), usize::MAX);
}

#[test]
fn unwrap_ref_gives_inner() {
    let o: Option<u32> = Some(5);
    assert_eq!(*o.unwrap_ref(), 5);
}

#[test]
fn trim_and_from_cstr() {
    let raw = b"__TEXT\0\0\0junk";
    assert_eq!(trim_to_null(raw), b"__TEXT");
    assert_eq!(trim_to_null(b"abc"), b"abc");
    assert_eq!(trim_to_null(b"\0abc"), b"");
    assert_eq!(from_cstr(raw), "__TEXT");
    assert_eq!(from_cstr(b"caf\xc3\xa9\0x"), "caf\u{e9}");
    assert_eq!(from_cstr(b"a\xffb"), "a\u{fffd}b");
}

#[test]
fn shell_quote_escapes() {
    let args = vec!["fat".to_string(), "--arch".to_string(), "x86_64".to_string()];
    assert_eq!(shell_quote(&args), "\"fat\" \"--arch\" \"x86_64\"");
    let tricky = vec!["a$b`c\\d\"e\nf".to_string()];
    assert_eq!(shell_quote(&tricky), "\"a\\$b\\`c\\\\d\\\"e\\nf\"");
    let ctl = vec!["\u{1}\tx".to_string()];
    assert_eq!(shell_quote(&ctl), "\"\\\\x01\tx\"");
    let high = vec!["\u{e9}".to_string()];
    assert_eq!(shell_quote(&high), "\"\\\\xc3\\\\xa9\"");
    assert_eq!(shell_quote(&[]), "");
    assert_eq!(shell_quote(&["".to_string()]), "\"\"");
}
