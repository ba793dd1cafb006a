use crate::strutil::push_char;
use vstd::prelude::*;
use vstd::string::StrSliceExecFns;

verus! {

/// The four-character separator that stands between two quoted components of
/// a serialized composite key: a closing quote, a comma, a space and an
/// opening quote.
pub open spec fn key_separator() -> Seq<char> {
    seq!['"', ',', ' ', '"']
}

/// The characters of `s` with every double-quote character removed.
pub open spec fn strip_quotes(s: Seq<char>) -> Seq<char>
    decreases s.len(),
{
    if s.len() == 0 {
        Seq::empty()
    } else if s[0] == '"' {
        strip_quotes(s.skip(1))
    } else {
        seq![s[0]] + strip_quotes(s.skip(1))
    }
}

/// Splits `s` on the leftmost non-overlapping occurrences of the separator,
/// with `cur` the piece accumulated so far; always yields at least one piece.
pub open spec fn split_components(s: Seq<char>, cur: Seq<char>) -> Seq<Seq<char>>
    decreases s.len(),
{
    if s.len() >= 4 && s.subrange(0, 4) == key_separator() {
        seq![cur] + split_components(s.skip(4), Seq::empty())
    } else if s.len() == 0 {
        seq![cur]
    } else {
        split_components(s.skip(1), cur.push(s[0]))
    }
}

/// The text of a composite key between a single leading `[` and a single
/// trailing `]`; either bracket may be absent.
pub open spec fn key_inner(s: Seq<char>) -> Seq<char> {
    let t = if s.len() > 0 && s[0] == '[' {
        s.skip(1)
    } else {
        s
    };
    if t.len() > 0 && t[t.len() - 1] == ']' {
        t.take(t.len() - 1)
    } else {
        t
    }
}

/// Quote removal applied to every piece.
pub open spec fn strip_all(cs: Seq<Seq<char>>) -> Seq<Seq<char>> {
    cs.map_values(|c: Seq<char>| strip_quotes(c))
}

/// The components of a composite key: the bracket-stripped text is split on
/// the separator and residual quotes are removed from each piece. Component
/// text must not itself contain the separator; no escaping is supported.
pub open spec fn parse_key_spec(s: Seq<char>) -> Seq<Seq<char>> {
    strip_all(split_components(key_inner(s), Seq::empty()))
}

/// Decodes a serialized composite key into its ordered component names.
pub fn parse_key(s: &str) -> (r: Vec<String>)
    ensures
        r.deep_view() == parse_key_spec(s@),
{
    let n: usize = s.unicode_len();
    let start: usize = if n > 0 && s.get_char(0) == '[' {
        1
    } else {
        0
    };
    let end: usize = if n > start && s.get_char(n - 1) == ']' {
        n - 1
    } else {
        n
    };
    let ghost inner: Seq<char> = s@.subrange(start as int, end as int);
    proof {
        assert(inner =~= key_inner(s@));
    }
    let mut raw: Vec<String> = Vec::new();
    let mut cur: String = String::new();
    let mut i: usize = start;
    proof {
        assert(inner.skip(0) =~= inner);
        assert(raw.deep_view() =~= Seq::<Seq<char>>::empty());
        assert(raw.deep_view() + split_components(inner, Seq::empty()) =~= split_components(
            inner,
            Seq::empty(),
        ));
    }
    while i < end
        invariant
            start <= i <= end <= n,
            n == s@.len(),
            inner == s@.subrange(start as int, end as int),
            split_components(inner, Seq::empty()) =~= raw.deep_view() + split_components(
                inner.skip(i - start),
                cur@,
            ),
        decreases end - i,
    {
        let ghost rest = inner.skip(i - start);
        proof {
            assert(rest.len() == end - i);
            assert forall|k: int| 0 <= k < rest.len() implies rest[k] == s@[i + k] by {}
        }
        if end - i >= 4 && s.get_char(i) == '"' && s.get_char(i + 1) == ',' && s.get_char(i + 2)
            == ' ' && s.get_char(i + 3) == '"' {
            proof {
                assert(rest.subrange(0, 4) =~= key_separator());
                assert(rest.skip(4) =~= inner.skip(i + 4 - start));
                let pushed = raw.deep_view().push(cur@);
                assert(raw.deep_view() + split_components(rest, cur@) =~= pushed
                    + split_components(inner.skip(i + 4 - start), Seq::empty()));
            }
            raw.push(cur);
            proof {
                assert(raw.deep_view() =~= raw.deep_view().take(raw.len() - 1).push(cur@));
            }
            cur = String::new();
            i = i + 4;
        } else {
            let c = s.get_char(i);
            proof {
                if rest.len() >= 4 && rest.subrange(0, 4) == key_separator() {
                    assert(rest.subrange(0, 4)[0] == s@[i as int]);
                    assert(rest.subrange(0, 4)[1] == s@[i + 1]);
                    assert(rest.subrange(0, 4)[2] == s@[i + 2]);
                    assert(rest.subrange(0, 4)[3] == s@[i + 3]);
                    assert(false);
                }
                assert(rest[0] == s@[i as int]);
                assert(rest.skip(1) =~= inner.skip(i + 1 - start));
            }
            push_char(&mut cur, c);
            i = i + 1;
        }
    }
    proof {
        assert(inner.skip(i - start) =~= Seq::<char>::empty());
    }
    raw.push(cur);
    proof {
        assert(raw.deep_view() =~= raw.deep_view().take(raw.len() - 1).push(cur@));
        assert(raw.deep_view() =~= split_components(inner, Seq::empty()));
    }
    let mut out: Vec<String> = Vec::new();
    let mut k: usize = 0;
    while k < raw.len()
        invariant
            0 <= k <= raw.len(),
            raw.deep_view() == split_components(inner, Seq::empty()),
            inner == key_inner(s@),
            out.deep_view() =~= strip_all(raw.deep_view().take(k as int)),
        decreases raw.len() - k,
    {
        let rc: &String = &raw[k];
        let m: usize = rc.as_str().unicode_len();
        let mut t = String::new();
        let mut j: usize = 0;
        proof {
            assert(rc@.skip(0) =~= rc@);
            assert(t@ + strip_quotes(rc@) =~= strip_quotes(rc@));
        }
        while j < m
            invariant
                0 <= j <= m,
                m == rc@.len(),
                strip_quotes(rc@) =~= t@ + strip_quotes(rc@.skip(j as int)),
            decreases m - j,
        {
            let ghost rrest = rc@.skip(j as int);
            proof {
                assert(rrest[0] == rc@[j as int]);
                assert(rrest.skip(1) =~= rc@.skip(j + 1));
            }
            let c = rc.as_str().get_char(j);
            if c != '"' {
                push_char(&mut t, c);
            }
            j = j + 1;
        }
        proof {
            assert(rc@.skip(j as int) =~= Seq::<char>::empty());
            assert(strip_quotes(rc@) =~= t@);
        }
        proof {
            assert(raw.deep_view()[k as int] == rc@);
        }
        let ghost prev = out.deep_view();
        out.push(t);
        k = k + 1;
        proof {
            let dv = raw.deep_view();
            assert(out.deep_view() =~= prev.push(t@));
            assert(dv.take(k as int) =~= dv.take(k - 1).push(dv[k - 1]));
            assert(strip_all(dv.take(k as int)) =~= prev.push(t@));
            assert(out.deep_view() =~= strip_all(dv.take(k as int)));
        }
    }
    proof {
        assert(raw.deep_view().take(k as int) =~= raw.deep_view());
    }
    out
}

} // verus!
