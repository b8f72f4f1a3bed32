//! Pure text helpers: substring search and the escaping applied to outbound
//! message text.

use vstd::prelude::*;

verus! {

/// `needle` occurs in `hay` starting at position `i`.
pub open spec fn contains_at(hay: Seq<char>, needle: Seq<char>, i: int) -> bool {
    0 <= i && i + needle.len() <= hay.len() && hay.subrange(i, i + needle.len()) == needle
}

pub open spec fn str_has_sub(hay: Seq<char>, needle: Seq<char>) -> bool {
    exists|i: int| contains_at(hay, needle, i)
}

/// Substring search, character by character.
pub fn str_contains(hay: &str, needle: &str) -> (r: bool)
    ensures
        r == str_has_sub(hay@, needle@),
{
    let hl = hay.unicode_len();
    let nl = needle.unicode_len();
    if nl > hl {
        proof {
            assert forall|i: int| !contains_at(hay@, needle@, i) by {}
        }
        return false;
    }
    if nl == 0 {
        proof {
            assert(hay@.subrange(0, 0) =~= needle@);
            assert(contains_at(hay@, needle@, 0));
        }
        return true;
    }
    let mut i: usize = 0;
    while i <= hl - nl
        invariant
            nl <= hl,
            hl == hay@.len(),
            nl == needle@.len(),
            i <= hl - nl + 1,
            forall|p: int| 0 <= p < i ==> !contains_at(hay@, needle@, p),
        decreases hl - nl - i + 1,
    {
        let mut j: usize = 0;
        let mut ok = true;
        proof {
            assert(hay@.subrange(i as int, i as int) =~= needle@.subrange(0, 0));
        }
        while j < nl && ok
            invariant
                nl <= hl,
                hl == hay@.len(),
                nl == needle@.len(),
                i + nl <= hl,
                j <= nl,
                ok <==> hay@.subrange(i as int, i + j) == needle@.subrange(0, j as int),
            decreases nl - j + (if ok {
                1int
            } else {
                0int
            }),
        {
            let hc = hay.get_char(i + j);
            let nc = needle.get_char(j);
            proof {
                assert(hay@.subrange(i as int, i + j + 1) == hay@.subrange(i as int, i + j).push(
                    hay@[i + j],
                ));
                assert(needle@.subrange(0, j + 1) == needle@.subrange(0, j as int).push(needle@[j as int]));
            }
            if hc != nc {
                ok = false;
                proof {
                    assert(hay@.subrange(i as int, i + j + 1)[j as int] != needle@.subrange(
                        0,
                        j + 1,
                    )[j as int]);
                }
            }
            j = j + 1;
        }
        if ok {
            proof {
                assert(hay@.subrange(i as int, i + nl) == needle@.subrange(0, nl as int));
                assert(needle@.subrange(0, nl as int) =~= needle@);
                assert(contains_at(hay@, needle@, i as int));
            }
            return true;
        }
        proof {
            if contains_at(hay@, needle@, i as int) {
                assert(hay@.subrange(i as int, i + nl) == needle@);
                assert(hay@.subrange(i as int, i + j) =~= needle@.subrange(0, j as int)) by {
                    assert forall|k: int|
                        0 <= k < j implies hay@.subrange(i as int, i + j)[k] == needle@.subrange(
                        0,
                        j as int,
                    )[k] by {
                        assert(hay@.subrange(i as int, i + nl)[k] == needle@[k]);
                    }
                }
                assert(false);
            }
        }
        i = i + 1;
    }
    proof {
        assert forall|p: int| !contains_at(hay@, needle@, p) by {
            if 0 <= p && p + needle@.len() <= hay@.len() {
                assert(p < i);
            }
        }
    }
    false
}

/// Whether outbound text must put a space after this character so it cannot
/// form a mention, hashtag or cashtag.
pub open spec fn needs_escape(c: char) -> bool {
    c == '#' || c == '@' || c == '$' || c == '＃' || c == '＠'
}

pub open spec fn escaped_char(c: char) -> Seq<char> {
    if needs_escape(c) {
        seq![c, ' ']
    } else {
        seq![c]
    }
}

/// The escaped form of a text: every mention-forming character gets a space
/// after it; everything else is kept as is.
pub open spec fn escape_chars(s: Seq<char>) -> Seq<char>
    decreases s.len(),
{
    if s.len() == 0 {
        Seq::empty()
    } else {
        escaped_char(s[0]) + escape_chars(s.skip(1))
    }
}

proof fn lemma_escape_push(s: Seq<char>, c: char)
    ensures
        escape_chars(s.push(c)) == escape_chars(s) + escaped_char(c),
    decreases s.len(),
{
    if s.len() == 0 {
        assert(s.push(c)[0] == c);
        assert(s.push(c).skip(1) =~= Seq::<char>::empty());
        assert(escape_chars(s.push(c)) == escaped_char(c) + escape_chars(s.push(c).skip(1)));
        assert(escape_chars(Seq::<char>::empty()) =~= Seq::<char>::empty());
        assert(escaped_char(c) + Seq::<char>::empty() =~= escaped_char(c));
        assert(escape_chars(s) =~= Seq::<char>::empty());
        assert(Seq::<char>::empty() + escaped_char(c) =~= escaped_char(c));
        assert(escape_chars(s.push(c)) =~= escape_chars(s) + escaped_char(c));
    } else {
        lemma_escape_push(s.skip(1), c);
        assert(s.push(c).skip(1) =~= s.skip(1).push(c));
        assert(s.push(c)[0] == s[0]);
        assert(escape_chars(s.push(c)) =~= escape_chars(s) + escaped_char(c));
    }
}

/// Escapes a text for outbound posting.
pub fn escape(s: &str) -> (r: String)
    ensures
        r@ == escape_chars(s@),
{
    let n = s.unicode_len();
    let mut r = String::new();
    proof {
        assert(s@.take(0) =~= Seq::<char>::empty());
        assert(r@ =~= escape_chars(s@.take(0)));
    }
    for i in 0..n
        invariant
            n == s@.len(),
            r@ == escape_chars(s@.take(i as int)),
    {
        let piece = s.substring_char(i, i + 1);
        r.append(piece);
        proof {
            assert(piece@ =~= seq![s@[i as int]]);
        }
        let c = s.get_char(i);
        if c == '#' || c == '@' || c == '$' || c == '＃' || c == '＠' {
            proof {
                reveal_strlit(" ");
            }
            r.append(" ");
        }
        proof {
            lemma_escape_push(s@.take(i as int), s@[i as int]);
            assert(s@.take(i + 1) == s@.take(i as int).push(s@[i as int]));
            assert(r@ =~= escape_chars(s@.take(i + 1)));
        }
    }
    proof {
        assert(s@.take(n as int) =~= s@);
    }
    r
}

} // verus!
