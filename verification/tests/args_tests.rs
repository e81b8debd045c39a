use rainbowtable::args::is_u32_arg;

#[test]
fn u32_args_accepted() {
    assert!(is_u32_arg(String::from("0")).is_ok());
    assert!(is_u32_arg(String::from("123")).is_ok());
    assert!(is_u32_arg(String::from("+123")).is_ok());
    assert!(is_u32_arg(String::from("00042")).is_ok());
    assert!(is_u32_arg(String::from("4294967295")).is_ok());
}

#[test]
fn u32_args_rejected() {
    assert!(is_u32_arg(String::from("")).is_err());
    assert!(is_u32_arg(String::from("+")).is_err());
    assert!(is_u32_arg(String::from("abc")).is_err());
    assert!(is_u32_arg(String::from("-1")).is_err());
    assert!(is_u32_arg(String::from("12x")).is_err());
    assert!(is_u32_arg(String::from("4294967296")).is_err());
    assert_eq!(
        is_u32_arg(String::from("nope")),
        Err(String::from("The value is not a valid u32"))
    );
}

#[test]
fn u32_arg_agrees_with_std_parse() {
    for s in [
        "0",
        "123",
        "+123",
        "",
        "+",
        "abc",
        "-1",
        "12x",
        "4294967295",
        "4294967296",
        "00042",
        " 1",
        "1 ",
        "++1",
    ] {
        assert_eq!(
            is_u32_arg(String::from(s)).is_ok(),
            s.parse::<u32>().is_ok(),
            "disagreement on {:?}",
            s
        );
    }
}
