//! Character-level text utilities: comparing, splitting, joining and trimming
//! strings, all specified over `Seq<char>`.

use vstd::prelude::*;
use vstd::std_specs::iter::IteratorSpec;

verus! {

/// `String::push` appends one character to the end of the string.
pub assume_specification[ String::push ](s: &mut String, ch: char)
    ensures
        final(s)@ == old(s)@.push(ch),
;

/// The views of a sequence of strings.
pub open spec fn texts(v: Seq<String>) -> Seq<Seq<char>> {
    v.map_values(|s: String| s@)
}

/// The view of an optional string.
pub open spec fn option_text(s: Option<String>) -> Option<Seq<char>> {
    match s {
        Some(s) => Some(s@),
        None => None,
    }
}

/// The characters of `s`, in order.
pub fn chars_of(s: &str) -> (v: Vec<char>)
    ensures
        v@ == s@,
{
    let mut v: Vec<char> = Vec::new();
    for c in it: s.chars()
        invariant
            v@ == it.seq().take(it.index()),
            it.seq() == s@,
    {
        v.push(c);
    }
    v
}

/// The string made of the characters `v[from..to]`.
fn string_of(v: &Vec<char>, from: usize, to: usize) -> (s: String)
    requires
        from <= to <= v.len(),
    ensures
        s@ == v@.subrange(from as int, to as int),
{
    let mut s = String::new();
    let mut i: usize = from;
    while i < to
        invariant
            from <= i <= to <= v.len(),
            s@ == v@.subrange(from as int, i as int),
        decreases to - i,
    {
        s.push(v[i]);
        i += 1;
    }
    s
}

/// Whether two strings hold the same characters.
pub fn same_text(a: &str, b: &str) -> (r: bool)
    ensures
        r == (a@ == b@),
{
    let mut ia = a.chars();
    let mut ib = b.chars();
    let ghost mut k: int = 0;
    loop
        invariant
            0 <= k <= a@.len(),
            k <= b@.len(),
            ia.remaining() == a@.skip(k),
            ib.remaining() == b@.skip(k),
            a@.take(k) == b@.take(k),
        decreases a@.len() - k,
    {
        let ca = ia.next();
        let cb = ib.next();
        match (ca, cb) {
            (Some(x), Some(y)) => {
                if x != y {
                    assert(a@[k] != b@[k]);
                    return false;
                }
                proof {
                    assert(a@.take(k + 1) == a@.take(k).push(a@[k]));
                    assert(b@.take(k + 1) == b@.take(k).push(b@[k]));
                    assert(a@.skip(k).drop_first() == a@.skip(k + 1));
                    assert(b@.skip(k).drop_first() == b@.skip(k + 1));
                    k = k + 1;
                }
            },
            (None, None) => {
                assert(a@.take(k) == a@);
                assert(b@.take(k) == b@);
                return true;
            },
            _ => {
                assert(a@.len() != b@.len());
                return false;
            },
        }
    }
}

/// Whether `s` begins with the characters of `prefix`.
pub fn starts_with(s: &str, prefix: &str) -> (r: bool)
    ensures
        r == prefix@.is_prefix_of(s@),
{
    let mut is = s.chars();
    let mut ip = prefix.chars();
    let ghost mut k: int = 0;
    loop
        invariant
            0 <= k <= s@.len(),
            k <= prefix@.len(),
            is.remaining() == s@.skip(k),
            ip.remaining() == prefix@.skip(k),
            s@.take(k) == prefix@.take(k),
        decreases prefix@.len() - k,
    {
        match ip.next() {
            None => {
                assert(prefix@.take(k) == prefix@);
                assert(s@.subrange(0, prefix@.len() as int) == s@.take(k));
                return true;
            },
            Some(y) => {
                match is.next() {
                    None => {
                        return false;
                    },
                    Some(x) => {
                        if x != y {
                            assert(prefix@.len() <= s@.len() ==> s@.subrange(
                                0,
                                prefix@.len() as int,
                            )[k] != prefix@[k]);
                            return false;
                        }
                        proof {
                            assert(s@.take(k + 1) == s@.take(k).push(s@[k]));
                            assert(prefix@.take(k + 1) == prefix@.take(k).push(prefix@[k]));
                            assert(s@.skip(k).drop_first() == s@.skip(k + 1));
                            assert(prefix@.skip(k).drop_first() == prefix@.skip(k + 1));
                            k = k + 1;
                        }
                    },
                }
            },
        }
    }
}

/// The first character of `s`, if it has one.
pub fn first_char(s: &str) -> (r: Option<char>)
    ensures
        r == (if s@.len() > 0 { Some(s@[0]) } else { None::<char> }),
{
    let mut it = s.chars();
    it.next()
}

/// The last character of `s`, if it has one.
pub fn last_char(s: &str) -> (r: Option<char>)
    ensures
        r == (if s@.len() > 0 {
            Some(s@.last())
        } else {
            None::<char>
        }),
{
    let mut last: Option<char> = None;
    for c in it: s.chars()
        invariant
            it.seq() == s@,
            last == (if it.index() > 0 {
                Some(s@[it.index() - 1])
            } else {
                None::<char>
            }),
    {
        last = Some(c);
    }
    last
}

/// Whether `s` is exactly the one character `c`.
pub fn is_char(s: &str, c: char) -> (r: bool)
    ensures
        r == (s@ == seq![c]),
{
    let mut it = s.chars();
    let r = match it.next() {
        Some(x) => x == c && it.next().is_none(),
        None => false,
    };
    assert(r == (s@ =~= seq![c]));
    r
}

/// `s` without its first character, and the empty string where `s` is
/// empty.
pub fn after_first(s: &str) -> (r: String)
    ensures
        r@ == (if s@.len() > 0 {
            s@.drop_first()
        } else {
            Seq::<char>::empty()
        }),
{
    let mut r = String::new();
    let mut first = true;
    for c in it: s.chars()
        invariant
            it.seq() == s@,
            first == (it.index() == 0),
            first ==> r@ == Seq::<char>::empty(),
            !first ==> r@ == s@.subrange(1, it.index()),
    {
        proof {
            let i = it.index();
            if i > 0 {
                assert(s@.subrange(1, i + 1) == s@.subrange(1, i).push(c));
            }
        }
        if first {
            first = false;
        } else {
            r.push(c);
        }
    }
    proof {
        if s@.len() > 0 {
            assert(s@.subrange(1, s@.len() as int) == s@.drop_first());
        }
    }
    r
}

/// The pieces of `s` between the occurrences of `sep`. Reading left to right,
/// a separator opens a new, empty piece and any other character extends the
/// last piece; so there is always at least one piece, and no piece holds `sep`.
pub open spec fn split(s: Seq<char>, sep: char) -> Seq<Seq<char>>
    decreases s.len(),
{
    if s.len() == 0 {
        seq![Seq::<char>::empty()]
    } else {
        let head = split(s.drop_last(), sep);
        if s.last() == sep {
            head.push(Seq::<char>::empty())
        } else {
            head.drop_last().push(head.last().push(s.last()))
        }
    }
}

/// The pieces of `parts` written one after the other with `sep` between them.
pub open spec fn join(parts: Seq<Seq<char>>, sep: char) -> Seq<char>
    decreases parts.len(),
{
    if parts.len() == 0 {
        Seq::<char>::empty()
    } else if parts.len() == 1 {
        parts[0]
    } else {
        join(parts.drop_last(), sep).push(sep) + parts.last()
    }
}

/// Whether no piece of `parts` holds the character `c`.
pub open spec fn all_free_of(parts: Seq<Seq<char>>, c: char) -> bool {
    forall|i: int| 0 <= i < parts.len() ==> !(#[trigger] parts[i]).contains(c)
}

/// A text of which no character is `c` does not hold `c`, and the other way
/// round.
pub proof fn lemma_free_of(s: Seq<char>, c: char)
    ensures
        !s.contains(c) <==> (forall|i: int| 0 <= i < s.len() ==> s[i] != c),
{
    if !s.contains(c) {
        assert forall|i: int| 0 <= i < s.len() implies s[i] != c by {
            assert(s.contains(s[i]));
        }
    }
}

/// Joining one more piece appends the separator and the piece, or the piece
/// alone where it is the first.
pub proof fn lemma_join_push(parts: Seq<Seq<char>>, last: Seq<char>, sep: char)
    ensures
        join(parts.push(last), sep) == (if parts.len() == 0 {
            last
        } else {
            join(parts, sep).push(sep) + last
        }),
{
    assert(parts.push(last).drop_last() == parts);
}

/// The join of four pieces, written out.
pub proof fn lemma_join_four(a: Seq<char>, b: Seq<char>, c: Seq<char>, d: Seq<char>, sep: char)
    ensures
        join(seq![a, b, c, d], sep) == a.push(sep) + b + seq![sep] + c + seq![sep] + d,
{
    lemma_join_push(Seq::empty(), a, sep);
    lemma_join_push(seq![a], b, sep);
    lemma_join_push(seq![a, b], c, sep);
    lemma_join_push(seq![a, b, c], d, sep);
    assert(Seq::<Seq<char>>::empty().push(a) == seq![a]);
    assert(seq![a].push(b) == seq![a, b]);
    assert(seq![a, b].push(c) == seq![a, b, c]);
    assert(seq![a, b, c].push(d) == seq![a, b, c, d]);
    assert((a.push(sep) + b).push(sep) + c == a.push(sep) + b + seq![sep] + c);
    assert((a.push(sep) + b + seq![sep] + c).push(sep) + d == a.push(sep) + b + seq![sep] + c
        + seq![sep] + d);
}

/// A split has at least one piece, and no piece holds the separator.
pub proof fn lemma_split_pieces(s: Seq<char>, sep: char)
    ensures
        split(s, sep).len() >= 1,
        all_free_of(split(s, sep), sep),
    decreases s.len(),
{
    if s.len() > 0 {
        lemma_split_pieces(s.drop_last(), sep);
        let head = split(s.drop_last(), sep);
        if s.last() != sep {
            let grown = head.last().push(s.last());
            assert forall|j: int| 0 <= j < grown.len() implies grown[j] != sep by {
                if j < head.last().len() {
                    assert(head.last().contains(grown[j]));
                }
            }
        }
    }
}

/// Joining the pieces of a split gives the text back.
pub proof fn lemma_join_split(s: Seq<char>, sep: char)
    ensures
        join(split(s, sep), sep) == s,
    decreases s.len(),
{
    if s.len() > 0 {
        let t = s.drop_last();
        lemma_join_split(t, sep);
        lemma_split_pieces(t, sep);
        let head = split(t, sep);
        if s.last() == sep {
            assert(head.push(Seq::<char>::empty()).drop_last() == head);
            assert(join(head, sep).push(sep) + Seq::<char>::empty() == s);
        } else {
            let grown = head.drop_last().push(head.last().push(s.last()));
            assert(grown.drop_last() == head.drop_last());
            if head.len() == 1 {
                assert(grown[0] == s);
            } else {
                assert(join(head.drop_last(), sep).push(sep) + head.last().push(s.last())
                    == (join(head.drop_last(), sep).push(sep) + head.last()).push(s.last()));
                assert(t.push(s.last()) == s);
            }
        }
    }
}

/// A text without the separator is its own single piece.
pub proof fn lemma_split_free(s: Seq<char>, sep: char)
    requires
        !s.contains(sep),
    ensures
        split(s, sep) == seq![s],
    decreases s.len(),
{
    if s.len() > 0 {
        let t = s.drop_last();
        assert forall|j: int| 0 <= j < t.len() implies t[j] != sep by {
            assert(s.contains(s[j]));
        }
        lemma_split_free(t, sep);
        assert(s.contains(s.last()));
        assert(t.push(s.last()) == s);
        assert(seq![t].drop_last().push(s) == seq![s]);
    } else {
        assert(s == Seq::<char>::empty());
    }
}

/// Splitting `a`, a separator and `b` gives the pieces of `a` followed by
/// the pieces of `b`.
pub proof fn lemma_split_around(a: Seq<char>, b: Seq<char>, sep: char)
    ensures
        split(a.push(sep) + b, sep) == split(a, sep) + split(b, sep),
    decreases b.len(),
{
    let whole = a.push(sep) + b;
    lemma_split_pieces(a, sep);
    if b.len() == 0 {
        assert(whole.drop_last() == a);
        assert(split(a, sep).push(Seq::<char>::empty()) == split(a, sep) + seq![
            Seq::<char>::empty(),
        ]);
    } else {
        let t = b.drop_last();
        lemma_split_around(a, t, sep);
        lemma_split_pieces(t, sep);
        assert(whole.drop_last() == a.push(sep) + t);
        assert(whole.last() == b.last());
        let head = split(a, sep) + split(t, sep);
        if b.last() == sep {
            assert(head.push(Seq::<char>::empty()) == split(a, sep) + split(t, sep).push(
                Seq::<char>::empty(),
            ));
        } else {
            assert(head.last() == split(t, sep).last());
            assert(head.drop_last() == split(a, sep) + split(t, sep).drop_last());
            assert(head.drop_last().push(head.last().push(b.last())) == split(a, sep) + split(
                t,
                sep,
            ).drop_last().push(split(t, sep).last().push(b.last())));
        }
    }
}

/// Splitting the join of separator-free pieces gives the pieces back.
pub proof fn lemma_split_join(parts: Seq<Seq<char>>, sep: char)
    requires
        parts.len() >= 1,
        all_free_of(parts, sep),
    ensures
        split(join(parts, sep), sep) == parts,
    decreases parts.len(),
{
    if parts.len() == 1 {
        lemma_split_free(parts[0], sep);
        assert(seq![parts[0]] == parts);
    } else {
        let init = parts.drop_last();
        assert(all_free_of(init, sep)) by {
            assert forall|i: int| 0 <= i < init.len() implies !(#[trigger] init[i]).contains(
                sep,
            ) by {
                assert(init[i] == parts[i]);
            }
        }
        lemma_split_join(init, sep);
        lemma_split_around(join(init, sep), parts.last(), sep);
        lemma_split_free(parts.last(), sep);
        assert(init + seq![parts.last()] == parts);
    }
}

/// A join holds a character only where a piece holds it or where it is the
/// separator.
pub proof fn lemma_join_free(parts: Seq<Seq<char>>, sep: char, c: char)
    requires
        all_free_of(parts, c),
        c != sep,
    ensures
        !join(parts, sep).contains(c),
    decreases parts.len(),
{
    if parts.len() == 1 {
        assert(!parts[0].contains(c));
    } else if parts.len() > 1 {
        let init = parts.drop_last();
        assert(all_free_of(init, c)) by {
            assert forall|i: int| 0 <= i < init.len() implies !(#[trigger] init[i]).contains(
                c,
            ) by {
                assert(init[i] == parts[i]);
            }
        }
        lemma_join_free(init, sep, c);
        let whole = join(parts, sep);
        let head = join(init, sep).push(sep);
        assert forall|i: int| 0 <= i < whole.len() implies whole[i] != c by {
            if i < head.len() - 1 {
                assert(join(init, sep).contains(whole[i]));
            } else if i >= head.len() {
                assert(parts.last().contains(whole[i])) by {
                    assert(parts.last()[i - head.len()] == whole[i]);
                }
                assert(!parts[parts.len() - 1].contains(c));
            }
        }
    }
}

/// Splits `s` at every occurrence of `sep`.
pub fn split_text(s: &str, sep: char) -> (parts: Vec<String>)
    ensures
        texts(parts@) == split(s@, sep),
{
    let mut parts: Vec<String> = Vec::new();
    let mut cur = String::new();
    assert(texts(parts@).push(cur@) == seq![Seq::<char>::empty()]);
    for c in it: s.chars()
        invariant
            it.seq() == s@,
            texts(parts@).push(cur@) == split(s@.take(it.index()), sep),
    {
        let ghost before = texts(parts@);
        let ghost piece = cur@;
        proof {
            let t = s@.take(it.index() + 1);
            assert(t.drop_last() == s@.take(it.index()));
            assert(t.last() == c);
            assert(before.push(piece).drop_last() == before);
        }
        if c == sep {
            proof {
                parts@.lemma_push_map_commute(|s: String| s@, cur);
            }
            parts.push(cur);
            cur = String::new();
        } else {
            cur.push(c);
        }
    }
    proof {
        assert(s@.take(s@.len() as int) == s@);
        parts@.lemma_push_map_commute(|s: String| s@, cur);
    }
    parts.push(cur);
    parts
}

/// Writes the strings of `parts` one after the other with `sep` between them.
pub fn join_text(parts: &Vec<String>, sep: char) -> (s: String)
    ensures
        s@ == join(texts(parts@), sep),
{
    let mut s = String::new();
    let mut i: usize = 0;
    while i < parts.len()
        invariant
            i <= parts.len(),
            s@ == join(texts(parts@).take(i as int), sep),
        decreases parts.len() - i,
    {
        proof {
            let t = texts(parts@).take(i + 1);
            assert(t.drop_last() == texts(parts@).take(i as int));
            assert(t.last() == parts@[i as int]@);
        }
        if i > 0 {
            s.push(sep);
        }
        s.append(parts[i].as_str());
        i += 1;
    }
    assert(texts(parts@).take(parts@.len() as int) == texts(parts@));
    s
}

/// What stands before the first `sep` in `s`: all of `s` where it holds none.
pub fn before_first(s: &str, sep: char) -> (r: String)
    ensures
        r@ == split(s@, sep)[0],
{
    let mut r = String::new();
    let mut found = false;
    for c in it: s.chars()
        invariant
            it.seq() == s@,
            split(s@.take(it.index()), sep).len() >= 1,
            found == (split(s@.take(it.index()), sep).len() > 1),
            r@ == split(s@.take(it.index()), sep)[0],
    {
        proof {
            let t = s@.take(it.index() + 1);
            assert(t.drop_last() == s@.take(it.index()));
            assert(t.last() == c);
        }
        if c == sep {
            found = true;
        } else if !found {
            r.push(c);
        }
    }
    assert(s@.take(s@.len() as int) == s@);
    r
}

/// Whether `c` is white space: a character with the Unicode property
/// `White_Space`.
pub open spec fn is_space(c: char) -> bool {
    let n = c as u32;
    ||| 0x9 <= n <= 0xD
    ||| n == 0x20
    ||| n == 0x85
    ||| n == 0xA0
    ||| n == 0x1680
    ||| 0x2000 <= n <= 0x200A
    ||| n == 0x2028
    ||| n == 0x2029
    ||| n == 0x202F
    ||| n == 0x205F
    ||| n == 0x3000
}

/// `s` without the white space at its start.
pub open spec fn trim_start(s: Seq<char>) -> Seq<char>
    decreases s.len(),
{
    if s.len() > 0 && is_space(s.first()) {
        trim_start(s.drop_first())
    } else {
        s
    }
}

/// `s` without the white space at its end.
pub open spec fn trim_end(s: Seq<char>) -> Seq<char>
    decreases s.len(),
{
    if s.len() > 0 && is_space(s.last()) {
        trim_end(s.drop_last())
    } else {
        s
    }
}

/// `s` without the white space at its start and at its end.
pub open spec fn trim(s: Seq<char>) -> Seq<char> {
    trim_end(trim_start(s))
}

/// `s` without the characters `c` at its end.
pub open spec fn without_trailing(s: Seq<char>, c: char) -> Seq<char>
    decreases s.len(),
{
    if s.len() > 0 && s.last() == c {
        without_trailing(s.drop_last(), c)
    } else {
        s
    }
}

/// Whether `c` is white space.
pub fn is_whitespace(c: char) -> (r: bool)
    ensures
        r == is_space(c),
{
    let n: u32 = c as u32;
    (0x9 <= n && n <= 0xD) || n == 0x20 || n == 0x85 || n == 0xA0 || n == 0x1680 || (0x2000 <= n
        && n <= 0x200A) || n == 0x2028 || n == 0x2029 || n == 0x202F || n == 0x205F || n == 0x3000
}

/// `s` without the white space at its start and at its end.
pub fn trim_text(s: &str) -> (t: String)
    ensures
        t@ == trim(s@),
{
    let v = chars_of(s);
    let mut lo: usize = 0;
    assert(v@.skip(0) == v@);
    while lo < v.len() && is_whitespace(v[lo])
        invariant
            lo <= v.len(),
            trim_start(v@) == trim_start(v@.skip(lo as int)),
        decreases v.len() - lo,
    {
        assert(v@.skip(lo as int).drop_first() == v@.skip(lo + 1));
        lo += 1;
    }
    let ghost body = v@.skip(lo as int);
    assert(trim_start(v@) == body);
    let mut hi: usize = v.len();
    assert(body.take(hi - lo) == body);
    while hi > lo && is_whitespace(v[hi - 1])
        invariant
            lo <= hi <= v.len(),
            body == v@.skip(lo as int),
            trim_end(body) == trim_end(body.take(hi - lo)),
        decreases hi,
    {
        assert(body.take(hi - lo).drop_last() == body.take(hi - lo - 1));
        hi -= 1;
    }
    assert(body.take(hi - lo) == v@.subrange(lo as int, hi as int));
    string_of(&v, lo, hi)
}

/// `s` without the characters `c` at its end.
pub fn trim_end_char(s: &str, c: char) -> (t: String)
    ensures
        t@ == without_trailing(s@, c),
{
    let v = chars_of(s);
    let mut hi: usize = v.len();
    assert(v@.take(hi as int) == v@);
    while hi > 0 && v[hi - 1] == c
        invariant
            hi <= v.len(),
            without_trailing(v@, c) == without_trailing(v@.take(hi as int), c),
        decreases hi,
    {
        assert(v@.take(hi as int).drop_last() == v@.take(hi - 1));
        hi -= 1;
    }
    assert(v@.take(hi as int) == v@.subrange(0, hi as int));
    string_of(&v, 0, hi)
}

/// What stands before `suffix` in `s`, if `s` ends with `suffix`.
pub open spec fn before_suffix(s: Seq<char>, suffix: Seq<char>) -> Option<Seq<char>> {
    if suffix.len() <= s.len() && s.skip(s.len() - suffix.len()) == suffix {
        Some(s.take(s.len() - suffix.len()))
    } else {
        None
    }
}

/// What stands before `suffix` in `s`, if `s` ends with `suffix`.
pub fn strip_suffix(s: &str, suffix: &str) -> (r: Option<String>)
    ensures
        option_text(r) == before_suffix(s@, suffix@),
{
    let v = chars_of(s);
    let w = chars_of(suffix);
    if w.len() > v.len() {
        return None;
    }
    let cut: usize = v.len() - w.len();
    for i in 0..w.len()
        invariant
            v@ == s@,
            w@ == suffix@,
            cut == v.len() - w.len(),
            w.len() <= v.len(),
            forall|j: int| 0 <= j < i ==> v@[cut + j] == w@[j],
    {
        if v[cut + i] != w[i] {
            assert(v@.skip(cut as int)[i as int] != w@[i as int]);
            return None;
        }
    }
    assert(v@.skip(cut as int) =~= w@);
    assert(v@.take(cut as int) == v@.subrange(0, cut as int));
    Some(string_of(&v, 0, cut))
}

} // verus!
