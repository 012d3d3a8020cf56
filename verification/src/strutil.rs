//! String helpers: splitting a path on a separator, joining segments back
//! together, trimming trailing characters, and rendering a counter in decimal.
//! Each executable function is proved against a spec function over `Seq<char>`.
use vstd::prelude::*;
use vstd::string::StrSliceExecFns;
use vstd::string::StringExecFns;

verus! {

/// The views of a sequence of strings, one character sequence per string.
pub open spec fn seq_views(v: Seq<String>) -> Seq<Seq<char>> {
    Seq::new(v.len(), |i: int| v[i]@)
}

/// The segments of `s` between occurrences of `sep`, in order. A separator at
/// either end, or two in a row, yields an empty segment; `s` without any
/// separator is one segment, so the result is never empty.
pub open spec fn spec_split(s: Seq<char>, sep: char) -> Seq<Seq<char>>
    decreases s.len(),
{
    if s.len() == 0 {
        seq![Seq::<char>::empty()]
    } else if s[0] == sep {
        seq![Seq::<char>::empty()] + spec_split(s.drop_first(), sep)
    } else {
        let rest = spec_split(s.drop_first(), sep);
        seq![seq![s[0]] + rest[0]] + rest.drop_first()
    }
}

pub proof fn lemma_split_nonempty(s: Seq<char>, sep: char)
    ensures
        spec_split(s, sep).len() >= 1,
    decreases s.len(),
{
    if s.len() > 0 {
        lemma_split_nonempty(s.drop_first(), sep);
    }
}

/// A sequence without the separator splits into itself alone.
pub proof fn lemma_split_whole(s: Seq<char>, sep: char)
    requires
        forall|i: int| 0 <= i < s.len() ==> s[i] != sep,
    ensures
        spec_split(s, sep) == seq![s],
    decreases s.len(),
{
    if s.len() == 0 {
        assert(spec_split(s, sep) =~~= seq![s]);
    } else {
        lemma_split_whole(s.drop_first(), sep);
        assert(seq![s[0]] + s.drop_first() =~= s);
        assert(spec_split(s, sep) =~~= seq![s]);
    }
}

/// Splitting at the first separator: the prefix before it is the first
/// segment, and the rest of the split is the split of what follows it.
pub proof fn lemma_split_at_sep(s: Seq<char>, sep: char, k: int)
    requires
        0 <= k < s.len(),
        s[k] == sep,
        forall|i: int| 0 <= i < k ==> s[i] != sep,
    ensures
        spec_split(s, sep) == seq![s.take(k)] + spec_split(s.skip(k + 1), sep),
    decreases k,
{
    if k == 0 {
        assert(s.take(0) =~= Seq::<char>::empty());
        assert(s.drop_first() =~= s.skip(1));
        assert(spec_split(s, sep) =~~= seq![s.take(0)] + spec_split(s.skip(1), sep));
    } else {
        let d = s.drop_first();
        lemma_split_at_sep(d, sep, k - 1);
        lemma_split_nonempty(d, sep);
        let rest = spec_split(d, sep);
        assert(rest == seq![d.take(k - 1)] + spec_split(d.skip(k), sep));
        assert(rest[0] == d.take(k - 1));
        assert(rest.drop_first() =~= spec_split(d.skip(k), sep));
        assert(seq![s[0]] + d.take(k - 1) =~= s.take(k));
        assert(d.skip(k) =~= s.skip(k + 1));
        assert(spec_split(s, sep) =~~= seq![s.take(k)] + spec_split(s.skip(k + 1), sep));
    }
}

/// Splits `s` on `sep`, keeping empty segments, as `spec_split` describes.
pub fn split_str(s: &str, sep: char) -> (r: Vec<String>)
    ensures
        seq_views(r@) == spec_split(s@, sep),
        r@.len() == spec_split(s@, sep).len(),
        r@.len() >= 1,
{
    let len = s.unicode_len();
    let mut r: Vec<String> = Vec::new();
    let mut start: usize = 0;
    let mut i: usize = 0;
    proof {
        assert(s@.skip(0) =~= s@);
    }
    while i < len
        invariant
            len == s@.len(),
            start <= i <= len,
            forall|j: int| start <= j < i ==> s@[j] != sep,
            spec_split(s@, sep) == seq_views(r@) + spec_split(s@.skip(start as int), sep),
        decreases len - i,
    {
        if s.get_char(i) == sep {
            let piece = s.substring_char(start, i).to_owned();
            proof {
                let suff = s@.skip(start as int);
                lemma_split_at_sep(suff, sep, i - start);
                assert(suff.take(i - start) =~= s@.subrange(start as int, i as int));
                assert(suff.skip(i - start + 1) =~= s@.skip(i + 1));
                assert(seq_views(r@.push(piece)) =~= seq_views(r@) + seq![piece@]);
                assert(seq_views(r@) + spec_split(suff, sep) =~= seq_views(r@.push(piece))
                    + spec_split(s@.skip(i + 1), sep));
            }
            r.push(piece);
            start = i + 1;
        }
        i += 1;
    }
    let piece = s.substring_char(start, len).to_owned();
    proof {
        let suff = s@.skip(start as int);
        lemma_split_whole(suff, sep);
        assert(suff =~= s@.subrange(start as int, len as int));
        assert(seq_views(r@.push(piece)) =~= seq_views(r@) + seq![piece@]);
        assert(seq_views(r@) + spec_split(suff, sep) =~= seq_views(r@.push(piece)));
    }
    r.push(piece);
    r
}

/// The segments of `ss` joined with `sep` between consecutive segments.
pub open spec fn spec_join(ss: Seq<Seq<char>>, sep: char) -> Seq<char>
    decreases ss.len(),
{
    if ss.len() == 0 {
        Seq::<char>::empty()
    } else if ss.len() == 1 {
        ss[0]
    } else {
        ss[0] + seq![sep] + spec_join(ss.drop_first(), sep)
    }
}

pub proof fn lemma_join_push(ss: Seq<Seq<char>>, x: Seq<char>, sep: char)
    ensures
        spec_join(ss.push(x), sep) == if ss.len() == 0 {
            x
        } else {
            spec_join(ss, sep) + seq![sep] + x
        },
    decreases ss.len(),
{
    if ss.len() == 0 {
        assert(ss.push(x).len() == 1);
        assert(ss.push(x)[0] == x);
    } else if ss.len() == 1 {
        assert(ss.push(x).len() == 2);
        assert(ss.push(x)[0] == ss[0]);
        assert(ss.push(x).drop_first() =~= seq![x]);
        assert(seq![x].len() == 1 && seq![x][0] == x);
        assert(spec_join(seq![x], sep) == x);
        assert(spec_join(ss.push(x), sep) == ss[0] + seq![sep] + x);
    } else {
        lemma_join_push(ss.drop_first(), x, sep);
        assert(ss.push(x).drop_first() =~= ss.drop_first().push(x));
        assert(ss[0] + seq![sep] + (spec_join(ss.drop_first(), sep) + seq![sep] + x) =~= (ss[0]
            + seq![sep] + spec_join(ss.drop_first(), sep)) + seq![sep] + x);
    }
}

/// Joins the strings of `v` from position `from` on with `sep` in between.
pub fn join_from(v: &Vec<String>, from: usize, sep: char) -> (r: String)
    requires
        from <= v@.len(),
        sep == '/',
    ensures
        r@ == spec_join(seq_views(v@).skip(from as int), sep),
{
    let mut r = String::new();
    let mut j: usize = from;
    proof {
        reveal_strlit("/");
        assert("/"@ =~= seq!['/']);
        assert(seq_views(v@).subrange(from as int, from as int) =~= Seq::<Seq<char>>::empty());
    }
    while j < v.len()
        invariant
            from <= j <= v@.len(),
            sep == '/',
            "/"@ == seq!['/'],
            r@ == spec_join(seq_views(v@).subrange(from as int, j as int), sep),
        decreases v@.len() - j,
    {
        proof {
            let pre = seq_views(v@).subrange(from as int, j as int);
            lemma_join_push(pre, v@[j as int]@, sep);
            assert(pre.push(v@[j as int]@) =~= seq_views(v@).subrange(from as int, j + 1));
        }
        if j > from {
            r.append("/");
        }
        r.append(v[j].as_str());
        j += 1;
    }
    proof {
        assert(seq_views(v@).subrange(from as int, v@.len() as int) =~= seq_views(v@).skip(
            from as int,
        ));
    }
    r
}

/// `s` with every trailing `c` removed.
pub open spec fn spec_trim_trailing(s: Seq<char>, c: char) -> Seq<char>
    decreases s.len(),
{
    if s.len() > 0 && s.last() == c {
        spec_trim_trailing(s.drop_last(), c)
    } else {
        s
    }
}

/// Returns `s` with every trailing `c` removed, as a slice of `s`.
pub fn trim_trailing<'a>(s: &'a str, c: char) -> (r: &'a str)
    ensures
        r@ == spec_trim_trailing(s@, c),
{
    let len = s.unicode_len();
    let mut end = len;
    proof {
        assert(s@.take(len as int) =~= s@);
    }
    while end > 0 && s.get_char(end - 1) == c
        invariant
            end <= len,
            len == s@.len(),
            spec_trim_trailing(s@, c) == spec_trim_trailing(s@.take(end as int), c),
        decreases end,
    {
        proof {
            if end == len {
                assert(s@.take(len as int) =~= s@);
                assert(s@[end - 1] == c);
                assert(s@.take(end as int).last() == c);
                assert(s@.take(end as int).drop_last() =~= s@.take(end - 1));
            } else {
                assert(s@.take(end as int).last() == c);
                assert(s@.take(end as int).drop_last() =~= s@.take(end - 1));
            }
        }
        end -= 1;
    }
    proof {
        let pre = s@.take(end as int);
        assert(!(pre.len() > 0 && pre.last() == c));
        assert(spec_trim_trailing(pre, c) == pre);
        assert(s@.subrange(0, end as int) =~= pre);
    }
    s.substring_char(0, end)
}

/// The character for the decimal digit `d`.
pub open spec fn digit_char(d: nat) -> char {
    if d == 0 {
        '0'
    } else if d == 1 {
        '1'
    } else if d == 2 {
        '2'
    } else if d == 3 {
        '3'
    } else if d == 4 {
        '4'
    } else if d == 5 {
        '5'
    } else if d == 6 {
        '6'
    } else if d == 7 {
        '7'
    } else if d == 8 {
        '8'
    } else {
        '9'
    }
}

/// The decimal digits of `n`, most significant first, without leading zeros
/// (except for `n == 0`, which is the single digit `0`).
pub open spec fn dec_digits(n: nat) -> Seq<char>
    decreases n,
{
    if n < 10 {
        seq![digit_char(n)]
    } else {
        dec_digits(n / 10).push(digit_char(n % 10))
    }
}

fn digit_str(d: usize) -> (r: &'static str)
    requires
        d < 10,
    ensures
        r@ == seq![digit_char(d as nat)],
{
    proof {
        reveal_strlit("0");
        reveal_strlit("1");
        reveal_strlit("2");
        reveal_strlit("3");
        reveal_strlit("4");
        reveal_strlit("5");
        reveal_strlit("6");
        reveal_strlit("7");
        reveal_strlit("8");
        reveal_strlit("9");
    }
    let r = if d == 0 {
        "0"
    } else if d == 1 {
        "1"
    } else if d == 2 {
        "2"
    } else if d == 3 {
        "3"
    } else if d == 4 {
        "4"
    } else if d == 5 {
        "5"
    } else if d == 6 {
        "6"
    } else if d == 7 {
        "7"
    } else if d == 8 {
        "8"
    } else {
        "9"
    };
    proof {
        assert(r@ =~= seq![digit_char(d as nat)]);
    }
    r
}

/// Renders `n` in decimal.
pub fn dec_str(n: usize) -> (r: String)
    ensures
        r@ == dec_digits(n as nat),
    decreases n,
{
    if n < 10 {
        digit_str(n).to_owned()
    } else {
        let mut r = dec_str(n / 10);
        r.append(digit_str(n % 10));
        proof {
            assert(dec_digits((n / 10) as nat).push(digit_char((n % 10) as nat)) =~= dec_digits(
                (n / 10) as nat,
            ) + seq![digit_char((n % 10) as nat)]);
        }
        r
    }
}

/// Whether two string slices hold the same characters.
pub fn str_eq(a: &str, b: &str) -> (r: bool)
    ensures
        r == (a@ == b@),
{
    let alen = a.unicode_len();
    let blen = b.unicode_len();
    if alen != blen {
        return false;
    }
    let mut i: usize = 0;
    while i < alen
        invariant
            alen == a@.len(),
            alen == b@.len(),
            i <= alen,
            forall|j: int| 0 <= j < i ==> a@[j] == b@[j],
        decreases alen - i,
    {
        if a.get_char(i) != b.get_char(i) {
            return false;
        }
        i += 1;
    }
    proof {
        assert(a@ =~= b@);
    }
    true
}

} // verus!
