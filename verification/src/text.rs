//! Plain-text building blocks of the report: Markdown escaping, decimal
//! formatting, case folding and lexicographic comparison of names.
use vstd::prelude::*;
use vstd::string::StrSliceExecFns;

verus! {

/// The Markdown punctuation that gets a backslash prefix.
pub open spec fn is_special(c: char) -> bool {
    ||| c == '\\'
    ||| c == '`'
    ||| c == '*'
    ||| c == '_'
    ||| c == '{'
    ||| c == '}'
    ||| c == '['
    ||| c == ']'
    ||| c == '('
    ||| c == ')'
    ||| c == '#'
    ||| c == '+'
    ||| c == '-'
    ||| c == '.'
    ||| c == '!'
    ||| c == '|'
    ||| c == '<'
    ||| c == '>'
    ||| c == '~'
}

/// How one character is embedded: special characters get a backslash prefix,
/// every other character passes through unchanged.
pub open spec fn escape_char(c: char) -> Seq<char> {
    if is_special(c) {
        seq!['\\', c]
    } else {
        seq![c]
    }
}

/// The escaped form of a whole string, character by character.
pub open spec fn escape_spec(s: Seq<char>) -> Seq<char>
    decreases s.len(),
{
    if s.len() == 0 {
        Seq::empty()
    } else {
        escape_spec(s.drop_last()) + escape_char(s.last())
    }
}

/// Relies on `String::push`: appends the one character at the end.
#[verifier::external_body]
fn push_char(s: &mut String, c: char)
    ensures
        final(s)@ == old(s)@.push(c),
{
    s.push(c)
}

/// Whether a character belongs to the escaped set.
fn is_special_char(c: char) -> (r: bool)
    ensures
        r == is_special(c),
{
    c == '\\' || c == '`' || c == '*' || c == '_' || c == '{' || c == '}' || c == '[' || c == ']'
        || c == '(' || c == ')' || c == '#' || c == '+' || c == '-' || c == '.' || c == '!'
        || c == '|' || c == '<' || c == '>' || c == '~'
}

/// Escape a name for embedding in the report: every structurally significant
/// punctuation character is prefixed with a backslash.
pub fn escape_markdown(text: &str) -> (r: String)
    ensures
        r@ == escape_spec(text@),
{
    let n = text.unicode_len();
    let mut out = String::new();
    let mut i: usize = 0;
    while i < n
        invariant
            n == text@.len(),
            0 <= i <= n,
            out@ == escape_spec(text@.take(i as int)),
        decreases n - i,
    {
        let c = text.get_char(i);
        proof {
            assert(text@.take(i + 1).drop_last() =~= text@.take(i as int));
            assert(text@.take(i + 1).last() == c);
        }
        if is_special_char(c) {
            push_char(&mut out, '\\');
            push_char(&mut out, c);
            proof {
                assert(out@ =~= escape_spec(text@.take(i + 1)));
            }
        } else {
            push_char(&mut out, c);
            proof {
                assert(out@ =~= escape_spec(text@.take(i + 1)));
            }
        }
        i = i + 1;
    }
    proof {
        assert(text@.take(n as int) =~= text@);
    }
    out
}

/// A string parses as a sequence of units, each either a plain character or
/// a backslash followed by a special character: no special character stands
/// unescaped.
pub open spec fn well_escaped(t: Seq<char>) -> bool
    decreases t.len(),
{
    if t.len() == 0 {
        true
    } else if is_special(t[0]) {
        t[0] == '\\' && t.len() >= 2 && is_special(t[1]) && well_escaped(t.skip(2))
    } else {
        well_escaped(t.skip(1))
    }
}

/// Appending one escaped character keeps a string well escaped.
proof fn lemma_well_escaped_append_unit(e: Seq<char>, c: char)
    requires
        well_escaped(e),
    ensures
        well_escaped(e + escape_char(c)),
    decreases e.len(),
{
    let t = e + escape_char(c);
    if e.len() == 0 {
        assert(t =~= escape_char(c));
        assert(well_escaped(Seq::<char>::empty()));
        if is_special(c) {
            assert(t[0] == '\\' && t.len() == 2 && is_special(t[1]));
            assert(t.skip(2) =~= Seq::<char>::empty());
            assert(well_escaped(t));
        } else {
            assert(t[0] == c);
            assert(t.skip(1) =~= Seq::<char>::empty());
            assert(well_escaped(t));
        }
    } else {
        assert(t[0] == e[0]);
        if is_special(e[0]) {
            assert(t[1] == e[1]);
            lemma_well_escaped_append_unit(e.skip(2), c);
            assert(t.skip(2) =~= e.skip(2) + escape_char(c));
        } else {
            lemma_well_escaped_append_unit(e.skip(1), c);
            assert(t.skip(1) =~= e.skip(1) + escape_char(c));
        }
    }
}

/// Escaping leaves no special character unescaped: in the escaped form of
/// any string, every special character stands right after a backslash that
/// starts its two-character escape.
pub proof fn lemma_escape_well_escaped(s: Seq<char>)
    ensures
        well_escaped(escape_spec(s)),
    decreases s.len(),
{
    if s.len() > 0 {
        lemma_escape_well_escaped(s.drop_last());
        lemma_well_escaped_append_unit(escape_spec(s.drop_last()), s.last());
    }
}

/// Escaping is injective: two strings with the same escaped form read the
/// same, so distinct names cannot collide in the rendered document.
pub proof fn lemma_escape_injective(a: Seq<char>, b: Seq<char>)
    requires
        escape_spec(a) == escape_spec(b),
    ensures
        a == b,
    decreases a.len(),
{
    let ea = escape_spec(a);
    let eb = escape_spec(b);
    if a.len() == 0 && b.len() == 0 {
        assert(a =~= b);
    } else if a.len() == 0 {
        assert(eb.len() >= 1);
        assert(false);
    } else if b.len() == 0 {
        assert(ea.len() >= 1);
        assert(false);
    } else {
        let la = a.last();
        let lb = b.last();
        let pa = escape_spec(a.drop_last());
        let pb = escape_spec(b.drop_last());
        assert(ea == pa + escape_char(la));
        assert(eb == pb + escape_char(lb));
        assert(ea.last() == la);
        assert(eb.last() == lb);
        assert(la == lb);
        let u = escape_char(la).len();
        assert(escape_char(lb).len() == u);
        assert(pa =~= ea.take(ea.len() - u));
        assert(pb =~= eb.take(eb.len() - u));
        lemma_escape_injective(a.drop_last(), b.drop_last());
        assert(a =~= b) by {
            assert(a.drop_last() == b.drop_last());
            assert(a.len() == b.len());
            assert forall|i: int| 0 <= i < a.len() implies a[i] == b[i] by {
                if i < a.len() - 1 {
                    assert(a[i] == a.drop_last()[i]);
                    assert(b[i] == b.drop_last()[i]);
                }
            }
        }
    }
}

/// The decimal digit character for a value below ten.
pub open spec fn digit_char(d: int) -> char {
    ((48 + d) as u8) as char
}

/// The decimal numeral of a natural number, most significant digit first.
pub open spec fn dec_str(n: nat) -> Seq<char>
    decreases n,
{
    if n < 10 {
        seq![digit_char(n as int)]
    } else {
        dec_str(n / 10) + seq![digit_char((n % 10) as int)]
    }
}

/// Render a number as its decimal numeral.
pub fn u64_to_string(n: u64) -> (r: String)
    ensures
        r@ == dec_str(n as nat),
    decreases n,
{
    if n < 10 {
        let mut s = String::new();
        push_char(&mut s, (48 + n as u8) as char);
        proof {
            assert(s@ =~= dec_str(n as nat));
        }
        s
    } else {
        let mut s = u64_to_string(n / 10);
        push_char(&mut s, (48 + (n % 10) as u8) as char);
        proof {
            assert(s@ =~= dec_str(n as nat));
        }
        s
    }
}

/// The case-folded image of a string, as the folding routine computes it.
/// It depends on the characters alone.
pub uninterp spec fn lower_of(s: Seq<char>) -> Seq<char>;

/// Relies on `str::to_lowercase`: the result is determined by the input
/// characters alone (Unicode lowercase mapping, no locale).
#[verifier::external_body]
pub(crate) fn lowercase(s: &str) -> (r: String)
    ensures
        r@ == lower_of(s@),
{
    s.to_lowercase()
}

/// Strict lexicographic order on character sequences, comparing scalar values
/// position by position; a proper prefix sorts first.
pub open spec fn lex_lt(a: Seq<char>, b: Seq<char>) -> bool
    decreases a.len(),
{
    if b.len() == 0 {
        false
    } else if a.len() == 0 {
        true
    } else if a[0] == b[0] {
        lex_lt(a.skip(1), b.skip(1))
    } else {
        (a[0] as u32) < (b[0] as u32)
    }
}

/// Non-strict lexicographic order.
pub open spec fn lex_le(a: Seq<char>, b: Seq<char>) -> bool {
    lex_lt(a, b) || a == b
}

/// Lexicographic order is irreflexive and asymmetric.
pub proof fn lemma_lex_lt_asymmetric(a: Seq<char>, b: Seq<char>)
    ensures
        lex_lt(a, b) ==> !lex_lt(b, a),
        lex_lt(a, b) ==> a != b,
    decreases a.len(),
{
    if a.len() > 0 && b.len() > 0 && a[0] == b[0] {
        lemma_lex_lt_asymmetric(a.skip(1), b.skip(1));
        if lex_lt(a, b) {
            assert(a != b) by {
                if a == b {
                    assert(a.skip(1) == b.skip(1));
                }
            }
        }
    }
}

/// Any two distinct strings are ordered one way or the other.
pub proof fn lemma_lex_lt_total(a: Seq<char>, b: Seq<char>)
    ensures
        a == b || lex_lt(a, b) || lex_lt(b, a),
    decreases a.len(),
{
    if a.len() == 0 && b.len() == 0 {
        assert(a =~= b);
    }
    if a.len() > 0 && b.len() > 0 && a[0] != b[0] {
        vstd::utf8::char_u32_cast(a[0], a[0] as u32);
        vstd::utf8::char_u32_cast(b[0], b[0] as u32);
        assert((a[0] as u32) != (b[0] as u32));
    }
    if a.len() > 0 && b.len() > 0 && a[0] == b[0] {
        lemma_lex_lt_total(a.skip(1), b.skip(1));
        if a.skip(1) == b.skip(1) {
            assert(a.skip(1).len() == b.skip(1).len());
            assert(a.len() == b.len());
            assert forall|i: int| 0 <= i < a.len() implies a[i] == b[i] by {
                if i > 0 {
                    assert(a[i] == a.skip(1)[i - 1]);
                    assert(b[i] == b.skip(1)[i - 1]);
                }
            }
            assert(a =~= b);
        }
    }
}

/// Lexicographic order is transitive.
pub proof fn lemma_lex_lt_transitive(a: Seq<char>, b: Seq<char>, c: Seq<char>)
    requires
        lex_lt(a, b),
        lex_lt(b, c),
    ensures
        lex_lt(a, c),
    decreases a.len(),
{
    if a.len() > 0 && b.len() > 0 && c.len() > 0 && a[0] == b[0] && b[0] == c[0] {
        lemma_lex_lt_transitive(a.skip(1), b.skip(1), c.skip(1));
    }
}

/// Compare two strings in lexicographic order of their characters.
pub fn str_lt(a: &str, b: &str) -> (r: bool)
    ensures
        r == lex_lt(a@, b@),
{
    let alen = a.unicode_len();
    let blen = b.unicode_len();
    let mut i: usize = 0;
    proof {
        assert(a@.skip(0) =~= a@);
        assert(b@.skip(0) =~= b@);
    }
    loop
        invariant
            alen == a@.len(),
            blen == b@.len(),
            0 <= i <= alen,
            0 <= i <= blen,
            lex_lt(a@, b@) == lex_lt(a@.skip(i as int), b@.skip(i as int)),
        decreases alen - i,
    {
        if i >= alen {
            return i < blen;
        }
        if i >= blen {
            return false;
        }
        let ca = a.get_char(i);
        let cb = b.get_char(i);
        proof {
            assert(a@.skip(i as int)[0] == ca);
            assert(b@.skip(i as int)[0] == cb);
            assert(a@.skip(i as int).skip(1) =~= a@.skip(i + 1));
            assert(b@.skip(i as int).skip(1) =~= b@.skip(i + 1));
        }
        if ca != cb {
            return (ca as u32) < (cb as u32);
        }
        i = i + 1;
    }
}

} // verus!
