use i18n_core::minify::{hash128, minify, render_key};

#[test]
fn short_text_is_its_own_key() {
    assert_eq!(minify("Hello", 12, "t_", 10), "Hello");
    assert_eq!(minify("Hello", 12, "t_", 5), "Hello");
}

#[test]
fn zero_length_keeps_the_text() {
    assert_eq!(minify("Hello, world!", 0, "t_", 0), "Hello, world!");
}

#[test]
fn long_text_gets_prefix_and_fixed_width() {
    let key = minify("Hello, world!", 12, "t_", 5);
    assert!(key.starts_with("t_"));
    assert_eq!(key.len(), 2 + 12);
    assert_eq!(key, minify("Hello, world!", 12, "t_", 5));
    assert_ne!(key, "Hello, world!");
}

#[test]
fn render_key_writes_base62_digits() {
    assert_eq!(render_key(1337, 2, ""), "LZ");
    assert_eq!(render_key(1337, 1, "k"), "kL");
    assert_eq!(render_key(0, 1, ""), "0");
    assert_eq!(render_key(61, 1, ""), "z");
    assert_eq!(render_key(62, 2, ""), "10");
}

#[test]
fn render_key_fills_up_to_the_length() {
    assert_eq!(render_key(1337, 5, "p-"), "p-LZ000");
    assert_eq!(render_key(u128::MAX, 24, "").len(), 24);
    assert_eq!(render_key(u128::MAX, 22, ""), "7n42DGM5Tflk9n8mt7Fhc7");
}

#[test]
fn hash_is_siphash_1_3_with_zero_key() {
    assert_eq!(hash128("Hello, world!"), 59043751930840414933237592277307308145);
    assert_eq!(hash128(""), 246054486573677404645197968742568014861);
    assert_eq!(hash128("a"), 127343387764488123791650712457196598855);
}

#[test]
fn long_text_gets_the_digits_of_its_hash() {
    assert_eq!(minify("Hello, world!", 12, "t_", 5), "t_1LokVzuiIrh1");
    assert_eq!(minify("Hello, world!", 22, "", 12), "1LokVzuiIrh1xByyZG4wjZ");
    assert_eq!(minify("Hello, world!", 24, "", 12), "1LokVzuiIrh1xByyZG4wjZ00");
    assert_eq!(minify("Hello, world!", 24, "", 13), "Hello, world!");
    assert_eq!(
        minify("The quick brown fox jumps over the lazy dog", 8, "k.", 0),
        "k.4YYBOhZI"
    );
    assert_eq!(minify("", 4, "", 0), "");
    assert_eq!(minify("a", 4, "", 0), "2um9");
}

#[test]
fn threshold_counts_bytes() {
    assert_eq!(minify("héllo", 4, "", 6), "héllo");
    assert_ne!(minify("héllo", 4, "", 5), "héllo");
}
