use vedit::buffer::Buffer;
use vedit::object::Object::{CurlyBracket, Paren, Word};
use vedit::object::TextObject;
use vedit::object::Variant::{Around, Inner};

#[test]
fn textobject_test_span() {
    let t = |input: &str, pos: (usize, usize), textobj: TextObject, want: &str| {
        let mut b = Buffer::from(input);
        b.position(pos.0, pos.1);
        let span = textobj.span(&b);
        let got = b.text_for_span(span);
        assert_eq!(
            want, got,
            "\ninput={input:?} pos={pos:?} textobj={textobj:?}"
        );
    };

    // around/inner paren
    t("(wow\n)", (0, 1), TextObject(Around, Paren), "(wow\n)");
    t("x(foo)y", (0, 1), TextObject(Inner, Paren), "foo");
    t("a (xxx) b", (0, 4), TextObject(Around, Paren), "(xxx)");
    t("a (inner) b", (0, 5), TextObject(Inner, Paren), "inner");
    // no match -> empty
    t(")x(", (0, 1), TextObject(Around, Paren), "");

    // around/inner curly bracket
    t("x{foo}y", (0, 1), TextObject(Around, CurlyBracket), "{foo}");
    t("x{foo}y", (0, 1), TextObject(Inner, CurlyBracket), "foo");

    // inner word
    t("the cat sat", (0, 5), TextObject(Inner, Word), "cat");
    t("abba", (0, 1), TextObject(Inner, Word), "abba");

    // punctuation word classes
    t("a.b", (0, 0), TextObject(Inner, Word), "a");
    t("a.b", (0, 1), TextObject(Inner, Word), ".");
    t("a..b", (0, 1), TextObject(Inner, Word), "..");
    t("a.!b", (0, 1), TextObject(Inner, Word), ".!");
    t("a.!b!", (0, 2), TextObject(Inner, Word), ".!");
}
