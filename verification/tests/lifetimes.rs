use binary_tree::lifetimes::{ouch_2, ouch_2_1, ouch_4, str_tok, Ouch};

#[test]
fn lifetime_colision() {
    let mut ouch = Ouch;
    let loan = ouch.mutate_and_share();
    let _ = loan;
    ouch.share();
}

#[test]
fn hello_world() {
    let mut x = "hello world";
    let hello = str_tok(&mut x, ' ');

    {
        println!("{x}");
        println!("{hello}");
    }

    assert_eq!(hello, "hello");
    assert_eq!(x, "world");
}

#[test]
fn str_tok_without_delimiter_takes_all() {
    let mut x = "hello";
    assert_eq!(str_tok(&mut x, ' '), "hello");
    assert_eq!(x, "");
    assert_eq!(str_tok(&mut x, ' '), "");
    assert_eq!(x, "");
}

#[test]
fn str_tok_cuts_at_the_first_delimiter_only() {
    let mut x = "a,b,,c";
    assert_eq!(str_tok(&mut x, ','), "a");
    assert_eq!(x, "b,,c");
    assert_eq!(str_tok(&mut x, ','), "b");
    assert_eq!(x, ",c");
    assert_eq!(str_tok(&mut x, ','), "");
    assert_eq!(x, "c");
    assert_eq!(str_tok(&mut x, ','), "c");
    assert_eq!(x, "");
}

#[test]
fn str_tok_with_delimiter_at_the_end() {
    let mut x = "ab;";
    assert_eq!(str_tok(&mut x, ';'), "ab");
    assert_eq!(x, "");
}

#[test]
fn str_tok_counts_characters_not_bytes() {
    let mut x = "grüße→süß→é";
    assert_eq!(str_tok(&mut x, '→'), "grüße");
    assert_eq!(x, "süß→é");
    assert_eq!(str_tok(&mut x, 'ß'), "sü");
    assert_eq!(x, "→é");
}

#[test]
fn ouch_2_hands_its_argument_back() {
    let s = "loan".to_string();
    assert!(std::ptr::eq(ouch_2(&s), &s));
}

#[test]
fn ouch_2_1_ignores_its_argument() {
    assert_eq!(ouch_2_1("anything"), ("x", "y"));
    assert_eq!(ouch_2_1(""), ("x", "y"));
}

#[test]
fn ouch_4_picks_the_longer_and_the_second_on_a_tie() {
    assert_eq!(ouch_4("longer", "short"), "longer");
    assert_eq!(ouch_4("short", "longer"), "longer");
    assert_eq!(ouch_4("left", "tied"), "tied");
    assert_eq!(ouch_4("", ""), "");
    assert_eq!(ouch_4("éé", "abc"), "éé");
}

#[test]
fn mutate_and_share_lends_the_value() {
    let mut ouch = Ouch;
    let loan = ouch.mutate_and_share();
    assert_eq!(format!("{:?}", loan), "Ouch");
}
