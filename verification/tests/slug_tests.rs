use nvwrap::slug::generate_wrapper_name;

#[test]
fn wrapper_name_keeps_alphanumerics() {
    assert_eq!(generate_wrapper_name("abc123XYZ"), "wrapper_abc123XYZ");
}

#[test]
fn wrapper_name_escapes_separators() {
    assert_eq!(
        generate_wrapper_name("/opt/app/bin"),
        "wrapper__2fopt_2fapp_2fbin"
    );
}

#[test]
fn wrapper_names_of_distinct_paths_do_not_collide() {
    // naive underscore substitution would map both of these to the same name
    let a = generate_wrapper_name("/opt/app/bin");
    let b = generate_wrapper_name("/opt/app-bin");
    assert_eq!(b, "wrapper__2fopt_2fapp_2dbin");
    assert_ne!(a, b);

    let c = generate_wrapper_name("/opt/app_bin");
    let d = generate_wrapper_name("/opt/app bin");
    assert_eq!(c, "wrapper__2fopt_2fapp_5fbin");
    assert_eq!(d, "wrapper__2fopt_2fapp_20bin");
    assert_ne!(c, d);
}

#[test]
fn wrapper_name_escapes_wide_characters() {
    // one-byte code points use two hex digits, wider ones use `u` and six
    assert_eq!(generate_wrapper_name("caf\u{e9}"), "wrapper_caf_e9");
    assert_eq!(generate_wrapper_name("a\u{20ac}b"), "wrapper_a_u0020acb");
}

#[test]
fn wrapper_name_of_empty_path_is_the_tag() {
    assert_eq!(generate_wrapper_name(""), "wrapper_");
}
