//! Character-level text operations with their mathematical meaning:
//! Unicode white space, trimming, splitting and joining.

use vstd::prelude::*;

verus! {

broadcast use vstd::string::group_string_axioms;

/// A character with the Unicode `White_Space` property (what `char::is_whitespace` tests).
pub open spec fn is_ws(c: char) -> bool {
    let u = c as u32;
    ||| 0x09 <= u <= 0x0D
    ||| u == 0x20
    ||| u == 0x85
    ||| u == 0xA0
    ||| u == 0x1680
    ||| 0x2000 <= u <= 0x200A
    ||| u == 0x2028
    ||| u == 0x2029
    ||| u == 0x202F
    ||| u == 0x205F
    ||| u == 0x3000
}

/// Tests whether `c` is Unicode white space.
pub fn is_whitespace_char(c: char) -> (b: bool)
    ensures
        b == is_ws(c),
{
    let u = c as u32;
    (0x09 <= u && u <= 0x0D) || u == 0x20 || u == 0x85 || u == 0xA0 || u == 0x1680 || (0x2000
        <= u && u <= 0x200A) || u == 0x2028 || u == 0x2029 || u == 0x202F || u == 0x205F || u
        == 0x3000
}

/// Number of white-space characters at the start of `s`.
pub open spec fn lead_ws(s: Seq<char>) -> nat
    decreases s.len(),
{
    if s.len() == 0 {
        0
    } else if is_ws(s[0]) {
        1 + lead_ws(s.drop_first())
    } else {
        0
    }
}

/// Number of white-space characters at the end of `s`.
pub open spec fn trail_ws(s: Seq<char>) -> nat
    decreases s.len(),
{
    if s.len() == 0 {
        0
    } else if is_ws(s.last()) {
        1 + trail_ws(s.drop_last())
    } else {
        0
    }
}

/// `s` without its leading white space (`str::trim_start`).
pub open spec fn trim_start(s: Seq<char>) -> Seq<char> {
    s.skip(lead_ws(s) as int)
}

/// `s` without its trailing white space (`str::trim_end`).
pub open spec fn trim_end(s: Seq<char>) -> Seq<char> {
    s.take(s.len() - trail_ws(s))
}

/// `s` without leading and trailing white space (`str::trim`).
pub open spec fn trim(s: Seq<char>) -> Seq<char> {
    trim_end(trim_start(s))
}

pub proof fn lemma_lead_ws_at(s: Seq<char>, i: int)
    requires
        0 <= i <= s.len(),
        forall|j: int| 0 <= j < i ==> is_ws(#[trigger] s[j]),
        i == s.len() || !is_ws(s[i]),
    ensures
        lead_ws(s) == i,
    decreases i,
{
    if i > 0 {
        assert forall|j: int| 0 <= j < i - 1 implies is_ws(#[trigger] s.drop_first()[j]) by {
            assert(s.drop_first()[j] == s[j + 1]);
        }
        lemma_lead_ws_at(s.drop_first(), i - 1);
    }
}

pub proof fn lemma_trail_ws_at(s: Seq<char>, i: int)
    requires
        0 <= i <= s.len(),
        forall|j: int| i <= j < s.len() ==> is_ws(#[trigger] s[j]),
        i == 0 || !is_ws(s[i - 1]),
    ensures
        trail_ws(s) == s.len() - i,
    decreases s.len() - i,
{
    if i < s.len() {
        assert forall|j: int| i <= j < s.len() - 1 implies is_ws(#[trigger] s.drop_last()[j]) by {
            assert(s.drop_last()[j] == s[j]);
        }
        lemma_trail_ws_at(s.drop_last(), i);
    }
}

proof fn lemma_lead_ws_props(s: Seq<char>)
    ensures
        lead_ws(s) <= s.len(),
        forall|j: int| 0 <= j < lead_ws(s) ==> is_ws(#[trigger] s[j]),
        lead_ws(s) < s.len() ==> !is_ws(s[lead_ws(s) as int]),
    decreases s.len(),
{
    if s.len() > 0 && is_ws(s[0]) {
        let t = s.drop_first();
        lemma_lead_ws_props(t);
        assert forall|j: int| 0 <= j < lead_ws(s) implies is_ws(#[trigger] s[j]) by {
            if j > 0 {
                assert(s[j] == t[j - 1]);
            }
        }
        if lead_ws(s) < s.len() {
            assert(s[lead_ws(s) as int] == t[lead_ws(t) as int]);
        }
    }
}

proof fn lemma_trail_ws_props(s: Seq<char>)
    ensures
        trail_ws(s) <= s.len(),
        forall|j: int| s.len() - trail_ws(s) <= j < s.len() ==> is_ws(#[trigger] s[j]),
        trail_ws(s) < s.len() ==> !is_ws(s[s.len() - trail_ws(s) - 1]),
    decreases s.len(),
{
    if s.len() > 0 && is_ws(s.last()) {
        let t = s.drop_last();
        lemma_trail_ws_props(t);
        assert forall|j: int| s.len() - trail_ws(s) <= j < s.len() implies is_ws(#[trigger] s[j]) by {
            if j < s.len() - 1 {
                assert(s[j] == t[j]);
            }
        }
        if trail_ws(s) < s.len() {
            assert(s[s.len() - trail_ws(s) - 1] == t[t.len() - trail_ws(t) - 1]);
        }
    }
}

/// Law: trimming takes off the white space at both ends and nothing else: the
/// result is a stretch of `s` with only white space before and after it, and it
/// neither starts nor ends with white space; it is empty exactly when `s` is all
/// white space.
pub proof fn lemma_trim_shape(s: Seq<char>)
    ensures
        exists|a: int, b: int|
            {
                &&& 0 <= a <= b <= s.len()
                &&& trim(s) == s.subrange(a, b)
                &&& forall|j: int| 0 <= j < a ==> is_ws(#[trigger] s[j])
                &&& forall|j: int| b <= j < s.len() ==> is_ws(#[trigger] s[j])
                &&& a < b ==> !is_ws(s[a]) && !is_ws(s[b - 1])
            },
        trim(s).len() == 0 <==> (forall|j: int| 0 <= j < s.len() ==> is_ws(#[trigger] s[j])),
{
    lemma_lead_ws_props(s);
    let a = lead_ws(s) as int;
    let t = trim_start(s);
    lemma_trail_ws_props(t);
    let b = s.len() - trail_ws(t);
    assert(trim(s) == s.subrange(a, b));
    assert forall|j: int| b <= j < s.len() implies is_ws(#[trigger] s[j]) by {
        assert(s[j] == t[j - a]);
    }
    if a < b {
        assert(s[b - 1] == t[t.len() - trail_ws(t) - 1]);
    }
    assert(exists|a: int, b: int|
        {
            &&& 0 <= a <= b <= s.len()
            &&& trim(s) == s.subrange(a, b)
            &&& forall|j: int| 0 <= j < a ==> is_ws(#[trigger] s[j])
            &&& forall|j: int| b <= j < s.len() ==> is_ws(#[trigger] s[j])
            &&& a < b ==> !is_ws(s[a]) && !is_ws(s[b - 1])
        });
    if trim(s).len() == 0 {
        assert forall|j: int| 0 <= j < s.len() implies is_ws(#[trigger] s[j]) by {
            if j >= a {
                assert(j >= b);
            }
        }
    }
    if forall|j: int| 0 <= j < s.len() ==> is_ws(#[trigger] s[j]) {
        if a < s.len() {
            assert(is_ws(s[a]));
        }
    }
}

/// Collects the characters of `s`.
pub fn chars_of(s: &str) -> (v: Vec<char>)
    ensures
        v@ == s@,
{
    let mut v: Vec<char> = Vec::new();
    for c in it: s.chars()
        invariant
            it.seq() == s@,
            v@ == s@.take(it.index() as int),
    {
        v.push(c);
    }
    v
}


/// The pieces of `s` between occurrences of `sep` (`str::split` with a character):
/// always at least one piece, and empty pieces are kept.
pub open spec fn split_on(s: Seq<char>, sep: char) -> Seq<Seq<char>>
    decreases s.len(),
{
    if s.len() == 0 {
        seq![Seq::<char>::empty()]
    } else {
        let p = split_on(s.drop_last(), sep);
        if s.last() == sep {
            p.push(Seq::<char>::empty())
        } else {
            p.update(p.len() - 1, p.last().push(s.last()))
        }
    }
}

pub proof fn lemma_split_on_nonempty(s: Seq<char>, sep: char)
    ensures
        split_on(s, sep).len() >= 1,
    decreases s.len(),
{
    if s.len() > 0 {
        lemma_split_on_nonempty(s.drop_last(), sep);
    }
}

/// A non-empty text whose last piece is empty has at least two pieces.
pub proof fn lemma_split_on_last_empty(s: Seq<char>, sep: char)
    requires
        s.len() > 0,
        split_on(s, sep).last().len() == 0,
    ensures
        split_on(s, sep).len() >= 2,
{
    lemma_split_on_nonempty(s.drop_last(), sep);
}

/// A non-empty text has at least one line.
pub proof fn lemma_lines_nonempty(s: Seq<char>)
    requires
        s.len() > 0,
    ensures
        lines(s).len() >= 1,
{
    lemma_split_on_nonempty(s, '\n');
    if split_on(s, '\n').last().len() == 0 {
        lemma_split_on_last_empty(s, '\n');
    }
}

/// A line without the carriage return that ended it.
pub open spec fn strip_cr(p: Seq<char>) -> Seq<char> {
    if p.len() > 0 && p.last() == '\r' {
        p.drop_last()
    } else {
        p
    }
}

/// Each line without its carriage return.
pub open spec fn strip_crs(p: Seq<Seq<char>>) -> Seq<Seq<char>> {
    p.map_values(|x: Seq<char>| strip_cr(x))
}

proof fn lemma_strip_crs_push(p: Seq<Seq<char>>, x: Seq<char>)
    ensures
        strip_crs(p.push(x)) == strip_crs(p).push(strip_cr(x)),
{
    assert(strip_crs(p.push(x)) =~= strip_crs(p).push(strip_cr(x)));
}

/// Pushing a string pushes its view.
pub proof fn lemma_strs_push(a: Seq<String>, x: String)
    ensures
        strs(a.push(x)) == strs(a).push(x@),
{
    assert(strs(a.push(x)) =~= strs(a).push(x@));
}

proof fn lemma_views_push(a: Seq<Vec<char>>, x: Vec<char>)
    ensures
        views(a.push(x)) == views(a).push(x@),
{
    assert(views(a.push(x)) =~= views(a).push(x@));
}

/// The lines of `s` (`str::lines`): split at `\n` or `\r\n`; the final line ending is
/// optional, and an empty text has no lines.
pub open spec fn lines(s: Seq<char>) -> Seq<Seq<char>> {
    if s.len() == 0 {
        seq![]
    } else {
        let p = split_on(s, '\n');
        let ended = strip_crs(p.drop_last());
        if p.last().len() == 0 {
            ended
        } else {
            ended.push(p.last())
        }
    }
}

/// The parts joined with `sep` between consecutive parts (`[T]::join`).
pub open spec fn join(parts: Seq<Seq<char>>, sep: Seq<char>) -> Seq<char>
    decreases parts.len(),
{
    if parts.len() == 0 {
        seq![]
    } else if parts.len() == 1 {
        parts[0]
    } else {
        join(parts.drop_last(), sep) + sep + parts.last()
    }
}

/// `s` begins with `prefix`.
pub open spec fn starts_with(s: Seq<char>, prefix: Seq<char>) -> bool {
    prefix.len() <= s.len() && s.take(prefix.len() as int) == prefix
}

/// The views of a sequence of character vectors.
pub open spec fn views(v: Seq<Vec<char>>) -> Seq<Seq<char>> {
    v.map_values(|x: Vec<char>| x@)
}

/// The views of a sequence of strings.
pub open spec fn strs(v: Seq<String>) -> Seq<Seq<char>> {
    v.map_values(|x: String| x@)
}

/// Appends one character to a string (`String::push`).
#[verifier::external_body]
fn push_char(s: &mut String, c: char)
    ensures
        final(s)@ == old(s)@.push(c),
{
    s.push(c);
}

/// Compares two strings by their characters.
pub fn str_eq(a: &str, b: &str) -> (r: bool)
    ensures
        r == (a@ == b@),
{
    a.to_owned() == b.to_owned()
}

/// Whether `v` holds a string equal to `s`.
pub fn contains_str(v: &Vec<String>, s: &str) -> (r: bool)
    ensures
        r == strs(v@).contains(s@),
{
    let n = v.len();
    for i in 0..n
        invariant
            n == v@.len(),
            forall|q: int| 0 <= q < i ==> (#[trigger] v@[q])@ != s@,
    {
        if str_eq(v[i].as_str(), s) {
            assert(strs(v@)[i as int] == s@);
            return true;
        }
    }
    assert forall|q: int| 0 <= q < strs(v@).len() implies strs(v@)[q] != s@ by {
        assert(strs(v@)[q] == v@[q]@);
    }
    false
}

/// Copies a vector of strings.
pub fn copy_strings(v: &Vec<String>) -> (r: Vec<String>)
    ensures
        r@ == v@,
{
    let mut r: Vec<String> = Vec::new();
    let n = v.len();
    for i in 0..n
        invariant
            n == v@.len(),
            r@ == v@.take(i as int),
    {
        r.push(v[i].clone());
        assert(v@.take(i + 1) == v@.take(i as int).push(v@[i as int]));
    }
    assert(v@.take(n as int) == v@);
    r
}

/// Builds a string from characters.
pub fn string_of(v: &[char]) -> (s: String)
    ensures
        s@ == v@,
{
    let mut s = String::new();
    let n = v.len();
    for i in 0..n
        invariant
            n == v@.len(),
            s@ == v@.take(i as int),
    {
        push_char(&mut s, v[i]);
        assert(v@.take(i + 1) == v@.take(i as int).push(v@[i as int]));
    }
    assert(v@.take(n as int) == v@);
    s
}

/// Copies `v[from..to]`.
pub fn slice_chars(v: &Vec<char>, from: usize, to: usize) -> (r: Vec<char>)
    requires
        from <= to <= v@.len(),
    ensures
        r@ == v@.subrange(from as int, to as int),
{
    let mut r: Vec<char> = Vec::new();
    for i in from..to
        invariant
            from <= to <= v@.len(),
            r@ == v@.subrange(from as int, i as int),
    {
        r.push(v[i]);
        assert(v@.subrange(from as int, i + 1) == v@.subrange(from as int, i as int).push(
            v@[i as int],
        ));
    }
    r
}

/// The number of white-space characters at the start of `v`.
pub fn lead_ws_len(v: &Vec<char>) -> (i: usize)
    ensures
        i == lead_ws(v@),
        i <= v@.len(),
{
    let n = v.len();
    let mut i: usize = 0;
    while i < n && is_whitespace_char(v[i])
        invariant
            n == v@.len(),
            i <= n,
            forall|j: int| 0 <= j < i ==> is_ws(#[trigger] v@[j]),
        decreases n - i,
    {
        i = i + 1;
    }
    proof {
        lemma_lead_ws_at(v@, i as int);
    }
    i
}

/// `v` without its leading white space.
pub fn trim_start_chars(v: &Vec<char>) -> (r: Vec<char>)
    ensures
        r@ == trim_start(v@),
{
    let i = lead_ws_len(v);
    slice_chars(v, i, v.len())
}

/// The bounds `(start, end)` of `v` without leading and trailing white space.
pub fn trim_bounds(v: &Vec<char>) -> (r: (usize, usize))
    ensures
        r.0 <= r.1 <= v@.len(),
        v@.subrange(r.0 as int, r.1 as int) == trim(v@),
{
    let n = v.len();
    let i = lead_ws_len(v);
    let ghost t = v@.skip(i as int);
    let mut j: usize = n;
    while j > i && is_whitespace_char(v[j - 1])
        invariant
            n == v@.len(),
            i <= j <= n,
            t == v@.skip(i as int),
            forall|k: int| j <= k < n ==> is_ws(#[trigger] v@[k]),
        decreases j,
    {
        j = j - 1;
    }
    proof {
        assert forall|k: int| j - i <= k < t.len() implies is_ws(#[trigger] t[k]) by {
            assert(t[k] == v@[k + i]);
        }
        if j > i {
            assert(t[j - i - 1] == v@[j - 1]);
        }
        lemma_trail_ws_at(t, j - i);
        assert(trim_end(t) == v@.subrange(i as int, j as int));
    }
    (i, j)
}

/// Whether `v` begins with `prefix`.
pub fn chars_start_with(v: &Vec<char>, prefix: &Vec<char>) -> (b: bool)
    ensures
        b == starts_with(v@, prefix@),
{
    if prefix.len() > v.len() {
        return false;
    }
    let m = prefix.len();
    for k in 0..m
        invariant
            m == prefix@.len(),
            m <= v@.len(),
            forall|q: int| 0 <= q < k ==> v@[q] == prefix@[q],
    {
        if v[k] != prefix[k] {
            assert(v@.take(m as int)[k as int] != prefix@[k as int]);
            return false;
        }
    }
    assert(v@.take(m as int) == prefix@);
    true
}

/// The pieces of `v` between occurrences of `sep`.
pub fn split_chars(v: &Vec<char>, sep: char) -> (r: Vec<Vec<char>>)
    ensures
        views(r@) == split_on(v@, sep),
{
    let mut pieces: Vec<Vec<char>> = Vec::new();
    let mut cur: Vec<char> = Vec::new();
    let n = v.len();
    assert(v@.take(0) == Seq::<char>::empty());
    assert(views(pieces@).push(cur@) == split_on(v@.take(0), sep));
    for i in 0..n
        invariant
            n == v@.len(),
            views(pieces@).push(cur@) == split_on(v@.take(i as int), sep),
    {
        let c = v[i];
        let ghost pre = v@.take(i as int);
        assert(v@.take(i + 1).drop_last() == pre);
        assert(v@.take(i + 1).last() == c);
        proof {
            lemma_split_on_nonempty(pre, sep);
        }
        if c == sep {
            let done = cur;
            pieces.push(done);
            cur = Vec::new();
            assert(views(pieces@) == split_on(pre, sep));
        } else {
            let ghost old_cur = cur@;
            cur.push(c);
            assert(views(pieces@).push(cur@) == split_on(pre, sep).update(
                split_on(pre, sep).len() - 1,
                old_cur.push(c),
            ));
        }
    }
    assert(v@.take(n as int) == v@);
    let last = cur;
    pieces.push(last);
    pieces
}

/// The lines of `v`.
pub fn lines_chars(v: &Vec<char>) -> (r: Vec<Vec<char>>)
    ensures
        views(r@) == lines(v@),
{
    if v.len() == 0 {
        return Vec::new();
    }
    let p = split_chars(v, '\n');
    proof {
        lemma_split_on_nonempty(v@, '\n');
    }
    let np = p.len();
    let mut r: Vec<Vec<char>> = Vec::new();
    let ghost ps = split_on(v@, '\n');
    for i in 0..np - 1
        invariant
            np == p@.len(),
            np >= 1,
            views(p@) == ps,
            views(r@) == strip_crs(ps.take(i as int)),
    {
        let piece = &p[i];
        assert(piece@ == ps[i as int]);
        let k = piece.len();
        let line = if k > 0 && piece[k - 1] == '\r' {
            slice_chars(piece, 0, k - 1)
        } else {
            slice_chars(piece, 0, k)
        };
        assert(line@ == strip_cr(ps[i as int]));
        let ghost old_r = r@;
        r.push(line);
        proof {
            lemma_views_push(old_r, line);
            assert(ps.take(i + 1) == ps.take(i as int).push(ps[i as int]));
            lemma_strip_crs_push(ps.take(i as int), ps[i as int]);
        }

    }
    assert(ps.take(np - 1) == ps.drop_last());
    let last = &p[np - 1];
    assert(last@ == ps.last());
    assert(views(r@) == strip_crs(ps.drop_last()));
    if last.len() > 0 {
        let l = slice_chars(last, 0, last.len());
        let ghost old_r = r@;
        r.push(l);
        proof {
            assert(l@ == last@);
            lemma_views_push(old_r, l);
        }
    }
    r
}

/// The parts joined with `sep`.
pub fn join_chars(parts: &Vec<Vec<char>>, sep: &Vec<char>) -> (r: Vec<char>)
    ensures
        r@ == join(views(parts@), sep@),
{
    let mut r: Vec<char> = Vec::new();
    let n = parts.len();
    for i in 0..n
        invariant
            n == parts@.len(),
            r@ == join(views(parts@).take(i as int), sep@),
    {
        let ghost pre = views(parts@).take(i as int);
        let ghost post = views(parts@).take(i + 1);
        assert(post.drop_last() == pre);
        if i > 0 {
            let m = sep.len();
            for k in 0..m
                invariant
                    m == sep@.len(),
                    r@ == join(pre, sep@) + sep@.take(k as int),
            {
                r.push(sep[k]);
                assert(sep@.take(k + 1) == sep@.take(k as int).push(sep@[k as int]));
            }
            assert(sep@.take(m as int) == sep@);
        }
        let part = &parts[i];
        let m = part.len();
        let ghost base = r@;
        for k in 0..m
            invariant
                m == part@.len(),
                r@ == base + part@.take(k as int),
        {
            r.push(part[k]);
            assert(part@.take(k + 1) == part@.take(k as int).push(part@[k as int]));
        }
        assert(part@.take(m as int) == part@);
        assert(post.last() == part@);
        if i == 0 {
            assert(post.len() == 1);
            assert(r@ == post[0]);
        }
    }
    assert(views(parts@).take(n as int) == views(parts@));
    r
}

/// `a` pushed onto `s` holds what `s` holds and `a`.
pub proof fn lemma_push_contains<A>(s: Seq<A>, a: A, x: A)
    ensures
        s.push(a).contains(x) <==> (s.contains(x) || x == a),
{
    if s.contains(x) {
        let i = choose|i: int| 0 <= i < s.len() && s[i] == x;
        assert(s.push(a)[i] == x);
    }
    if x == a {
        assert(s.push(a)[s.len() as int] == x);
    }
    if s.push(a).contains(x) && x != a {
        let i = choose|i: int| 0 <= i < s.push(a).len() && s.push(a)[i] == x;
        assert(i < s.len());
        assert(s[i] == x);
    }
}

/// A non-empty sequence holds what it holds before its last item, and that item.
pub proof fn lemma_last_contains<A>(s: Seq<A>, x: A)
    requires
        s.len() > 0,
    ensures
        s.contains(x) <==> (s.drop_last().contains(x) || x == s.last()),
{
    assert(s == s.drop_last().push(s.last()));
    lemma_push_contains(s.drop_last(), s.last(), x);
}

} // verus!
