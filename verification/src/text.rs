//! Line-oriented text: the `name:value` record files that the console keeps
//! (the password list and the build cache) and the string helpers that the
//! rest of the library builds on.
use vstd::prelude::*;

verus! {

/// `String::push` appends one character at the end of the string
/// (std documents exactly that).
pub assume_specification[ String::push ](s: &mut String, ch: char)
    ensures
        final(s)@ == old(s)@.push(ch),
;

/// Index of the first occurrence of `c` in `s`, or `s.len()` when there is none.
pub open spec fn first_index_of(s: Seq<char>, c: char) -> int
    decreases s.len(),
{
    if s.len() == 0 {
        0
    } else if s[0] == c {
        0
    } else {
        1 + first_index_of(s.drop_first(), c)
    }
}

/// `l` without one trailing carriage return.
pub open spec fn strip_cr(l: Seq<char>) -> Seq<char> {
    if l.len() > 0 && l.last() == '\r' {
        l.drop_last()
    } else {
        l
    }
}

/// The lines of a text as `str::lines` yields them: split at each `\n`, a `\r`
/// just before the `\n` dropped, no empty line after a final `\n`.
pub open spec fn lines(s: Seq<char>) -> Seq<Seq<char>>
    decreases s.len(),
{
    if s.len() == 0 {
        seq![]
    } else {
        let i = first_index_of(s, '\n');
        if i >= s.len() || i < 0 {
            seq![s]
        } else {
            seq![strip_cr(s.take(i))] + lines(s.skip(i + 1))
        }
    }
}

/// What `split_once(':')` gives of a line: the text before the first colon and
/// the text after it.
pub open spec fn split_colon(l: Seq<char>) -> Option<(Seq<char>, Seq<char>)> {
    let i = first_index_of(l, ':');
    if i < l.len() {
        Some((l.take(i), l.skip(i + 1)))
    } else {
        None
    }
}

/// The records of a list of lines, one `name:value` pair per line; `None` when
/// some line holds no colon.
pub open spec fn entries_of(ls: Seq<Seq<char>>) -> Option<Seq<(Seq<char>, Seq<char>)>> {
    if forall|i: int| 0 <= i < ls.len() ==> (#[trigger] split_colon(ls[i])) is Some {
        Some(ls.map_values(|l: Seq<char>| split_colon(l)->0))
    } else {
        None
    }
}

/// A comment line of the password list starts with `//`.
pub open spec fn is_comment(l: Seq<char>) -> bool {
    l.len() >= 2 && l[0] == '/' && l[1] == '/'
}

/// The map that collecting the pairs gives: a later pair for the same name wins.
pub open spec fn pairs_map(s: Seq<(Seq<char>, Seq<char>)>) -> Map<Seq<char>, Seq<char>>
    decreases s.len(),
{
    if s.len() == 0 {
        Map::empty()
    } else {
        pairs_map(s.drop_last()).insert(s.last().0, s.last().1)
    }
}

/// The pairs of strings seen as pairs of character sequences.
pub open spec fn pairs_view(v: Seq<(String, String)>) -> Seq<(Seq<char>, Seq<char>)> {
    v.map_values(|p: (String, String)| (p.0@, p.1@))
}

/// The lines of a text that are not comments.
pub open spec fn active_lines(s: Seq<char>) -> Seq<Seq<char>> {
    lines(s).filter(|l: Seq<char>| !is_comment(l))
}

pub proof fn lemma_first_index_bounds(s: Seq<char>, c: char)
    ensures
        0 <= first_index_of(s, c) <= s.len(),
        first_index_of(s, c) < s.len() ==> s[first_index_of(s, c)] == c,
        forall|j: int| 0 <= j < first_index_of(s, c) ==> s[j] != c,
    decreases s.len(),
{
    if s.len() > 0 && s[0] != c {
        lemma_first_index_bounds(s.drop_first(), c);
        assert forall|j: int| 0 <= j < first_index_of(s, c) implies s[j] != c by {
            if j > 0 {
                assert(s[j] == s.drop_first()[j - 1]);
            }
        }
    }
}

/// The first occurrence is at `k` when nothing before `k` is `c` and `s[k]` is
/// (or `k` is the end).
pub proof fn lemma_first_index_at(s: Seq<char>, c: char, k: int)
    requires
        0 <= k <= s.len(),
        forall|j: int| 0 <= j < k ==> s[j] != c,
        k < s.len() ==> s[k] == c,
    ensures
        first_index_of(s, c) == k,
    decreases k,
{
    if k > 0 {
        assert forall|j: int| 0 <= j < k - 1 implies s.drop_first()[j] != c by {
            assert(s.drop_first()[j] == s[j + 1]);
        }
        lemma_first_index_at(s.drop_first(), c, k - 1);
    }
}

/// The lines of `t` followed by `\n` and `r`, where `t` holds no newline.
pub proof fn lemma_lines_cons(t: Seq<char>, r: Seq<char>)
    requires
        forall|j: int| 0 <= j < t.len() ==> t[j] != '\n',
    ensures
        lines(t + seq!['\n'] + r) == seq![strip_cr(t)] + lines(r),
{
    let s = t + seq!['\n'] + r;
    assert forall|j: int| 0 <= j < t.len() implies s[j] != '\n' by {
        assert(s[j] == t[j]);
    }
    lemma_first_index_at(s, '\n', t.len() as int);
    assert(s.take(t.len() as int) =~= t);
    assert(s.skip(t.len() as int + 1) =~= r);
}

/// A nonempty text without a newline is one line.
pub proof fn lemma_lines_single(t: Seq<char>)
    requires
        t.len() > 0,
        forall|j: int| 0 <= j < t.len() ==> t[j] != '\n',
    ensures
        lines(t) == seq![t],
{
    lemma_first_index_at(t, '\n', t.len() as int);
}

pub proof fn lemma_first_index_append(a: Seq<char>, b: Seq<char>, c: char)
    requires
        first_index_of(a, c) < a.len(),
    ensures
        first_index_of(a + b, c) == first_index_of(a, c),
{
    lemma_first_index_bounds(a, c);
    let k = first_index_of(a, c);
    assert forall|j: int| 0 <= j < k implies (a + b)[j] != c by {
        assert((a + b)[j] == a[j]);
    }
    lemma_first_index_at(a + b, c, k);
}

/// A text that is empty or ends with a newline keeps its lines when more text
/// is appended: the lines of `a + b` are those of `a`, then those of `b`.
pub proof fn lemma_lines_append(a: Seq<char>, b: Seq<char>)
    requires
        a.len() == 0 || a.last() == '\n',
    ensures
        lines(a + b) == lines(a) + lines(b),
    decreases a.len(),
{
    if a.len() == 0 {
        assert(a + b =~= b);
        assert(lines(a) =~= Seq::<Seq<char>>::empty());
        assert(lines(a) + lines(b) =~= lines(b));
    } else {
        lemma_first_index_bounds(a, '\n');
        if first_index_of(a, '\n') >= a.len() {
            assert(a[a.len() - 1] == '\n');
            assert(false);
        }
        let i = first_index_of(a, '\n');
        lemma_first_index_append(a, b, '\n');
        assert((a + b).take(i) =~= a.take(i));
        assert((a + b).skip(i + 1) =~= a.skip(i + 1) + b);
        let rest = a.skip(i + 1);
        if rest.len() > 0 {
            assert(rest.last() == a.last());
        }
        lemma_lines_append(rest, b);
        assert(lines(a + b) =~= seq![strip_cr(a.take(i))] + (lines(rest) + lines(b)));
        assert(lines(a) =~= seq![strip_cr(a.take(i))] + lines(rest));
    }
}

/// The value that the last pair named `k` carries is what the map gives for `k`.
pub proof fn lemma_pairs_map_last(s: Seq<(Seq<char>, Seq<char>)>, k: Seq<char>, j: int)
    requires
        0 <= j < s.len(),
        s[j].0 == k,
        forall|i: int| j < i < s.len() ==> s[i].0 != k,
    ensures
        pairs_map(s).contains_key(k),
        pairs_map(s)[k] == s[j].1,
    decreases s.len(),
{
    if j < s.len() - 1 {
        let p = s.drop_last();
        assert forall|i: int| j < i < p.len() implies p[i].0 != k by {
            assert(p[i] == s[i]);
        }
        lemma_pairs_map_last(p, k, j);
    }
}

/// A name that no pair carries is not in the map.
pub proof fn lemma_pairs_map_absent(s: Seq<(Seq<char>, Seq<char>)>, k: Seq<char>)
    requires
        forall|i: int| 0 <= i < s.len() ==> s[i].0 != k,
    ensures
        !pairs_map(s).contains_key(k),
    decreases s.len(),
{
    if s.len() > 0 {
        let p = s.drop_last();
        assert forall|i: int| 0 <= i < p.len() implies p[i].0 != k by {
            assert(p[i] == s[i]);
        }
        lemma_pairs_map_absent(p, k);
    }
}

/// A name in the map is carried by some pair, with the value the map gives.
pub proof fn lemma_pairs_map_witness(s: Seq<(Seq<char>, Seq<char>)>, k: Seq<char>)
    requires
        pairs_map(s).contains_key(k),
    ensures
        exists|j: int| 0 <= j < s.len() && s[j].0 == k && s[j].1 == pairs_map(s)[k],
    decreases s.len(),
{
    if s.len() > 0 {
        if s.last().0 == k {
            assert(s[s.len() - 1].0 == k);
        } else {
            let p = s.drop_last();
            lemma_pairs_map_witness(p, k);
            let j = choose|j: int| 0 <= j < p.len() && p[j].0 == k && p[j].1 == pairs_map(p)[k];
            assert(s[j] == p[j]);
        }
    }
}

/// One more `name:value` line appended to a text that is empty or ends with a
/// newline is read back as one more record, `(name, value)`.
pub proof fn lemma_append_record(text: Seq<char>, name: Seq<char>, value: Seq<char>)
    requires
        text.len() == 0 || text.last() == '\n',
        forall|j: int| 0 <= j < name.len() ==> name[j] != ':' && name[j] != '\n',
        forall|j: int| 0 <= j < value.len() ==> value[j] != '\n',
        value.len() > 0 ==> value.last() != '\r',
        entries_of(lines(text)) is Some,
    ensures
        entries_of(lines(text + (name + ":"@ + value + "\n"@))) == Some(
            entries_of(lines(text))->0.push((name, value)),
        ),
{
    reveal_strlit(":");
    reveal_strlit("\n");
    let x = name + ":"@ + value;
    assert(x =~= name + seq![':'] + value);
    assert(x + "\n"@ =~= x + seq!['\n'] + Seq::<char>::empty());
    assert forall|j: int| 0 <= j < x.len() implies x[j] != '\n' by {
        if j < name.len() {
            assert(x[j] == name[j]);
        } else if j > name.len() {
            assert(x[j] == value[j - name.len() - 1]);
        }
    }
    lemma_lines_cons(x, Seq::<char>::empty());
    assert(lines(Seq::<char>::empty()) =~= Seq::<Seq<char>>::empty());
    if value.len() > 0 {
        assert(x.last() == value.last());
    } else {
        assert(x.last() == ':');
    }
    assert(strip_cr(x) == x);
    assert(lines(x + "\n"@) =~= seq![x]);
    lemma_lines_append(text, x + "\n"@);
    let ls = lines(text);
    let ls2 = lines(text + (x + "\n"@));
    assert(text + (name + ":"@ + value + "\n"@) =~= text + (x + "\n"@));
    assert(ls2 =~= ls.push(x));
    assert forall|j: int| 0 <= j < name.len() implies x[j] != ':' by {
        assert(x[j] == name[j]);
    }
    lemma_first_index_at(x, ':', name.len() as int);
    assert(x.take(name.len() as int) =~= name);
    assert(x.skip(name.len() as int + 1) =~= value);
    assert forall|i: int| 0 <= i < ls2.len() implies (#[trigger] split_colon(ls2[i])) is Some by {
        if i < ls.len() {
            assert(ls2[i] == ls[i]);
        }
    }
    let es = entries_of(ls)->0;
    assert(ls2.map_values(|l: Seq<char>| split_colon(l)->0) =~= es.push((name, value)));
}

/// The characters of a string slice.
pub fn chars_of(text: &str) -> (v: Vec<char>)
    ensures
        v@ == text@,
{
    let mut v: Vec<char> = Vec::new();
    for c in it: text.chars()
        invariant
            it.seq() == text@,
            v@ == it.seq().take(it.index() as int),
    {
        v.push(c);
    }
    v
}

/// The string made of `v[lo..hi]`.
pub fn string_of(v: &Vec<char>, lo: usize, hi: usize) -> (s: String)
    requires
        lo <= hi <= v.len(),
    ensures
        s@ == v@.subrange(lo as int, hi as int),
{
    let mut s = String::new();
    let mut i = lo;
    while i < hi
        invariant
            lo <= i <= hi <= v.len(),
            s@ == v@.subrange(lo as int, i as int),
        decreases hi - i,
    {
        s.push(v[i]);
        i = i + 1;
    }
    s
}

/// Where the lines of `chars` lie: each pair `(lo, hi)` bounds one line.
pub fn line_bounds(chars: &Vec<char>) -> (b: Vec<(usize, usize)>)
    ensures
        b@.len() == lines(chars@).len(),
        forall|i: int|
            0 <= i < b@.len() ==> {
                &&& (#[trigger] b@[i]).0 <= b@[i].1 <= chars@.len()
                &&& chars@.subrange(b@[i].0 as int, b@[i].1 as int) == lines(chars@)[i]
            },
{
    let ghost s = chars@;
    let mut b: Vec<(usize, usize)> = Vec::new();
    let mut start: usize = 0;
    let mut i: usize = 0;
    let n = chars.len();
    proof {
        let f = |p: (usize, usize)| s.subrange(p.0 as int, p.1 as int);
        assert(s.skip(0) =~= s);
        assert(b@.map_values(f) + lines(s.skip(0)) =~= lines(s));
    }
    while i < n
        invariant
            n == s.len(),
            s == chars@,
            start <= i <= n,
            forall|j: int| start <= j < i ==> s[j] != '\n',
            lines(s) == b@.map_values(|p: (usize, usize)| s.subrange(p.0 as int, p.1 as int))
                + lines(s.skip(start as int)),
            forall|k: int| 0 <= k < b@.len() ==> (#[trigger] b@[k]).0 <= b@[k].1 <= n,
        decreases n - i,
    {
        if chars[i] == '\n' {
            let ghost t = s.subrange(start as int, i as int);
            let ghost r = s.skip(i + 1);
            proof {
                assert(s.skip(start as int) =~= t + seq!['\n'] + r);
                assert forall|j: int| 0 <= j < t.len() implies t[j] != '\n' by {
                    assert(t[j] == s[start + j]);
                }
                lemma_lines_cons(t, r);
            }
            let hi = if i > start && chars[i - 1] == '\r' { i - 1 } else { i };
            proof {
                assert(strip_cr(t) =~= s.subrange(start as int, hi as int));
            }
            let ghost old_b = b@;
            b.push((start, hi));
            proof {
                let f = |p: (usize, usize)| s.subrange(p.0 as int, p.1 as int);
                assert(b@.map_values(f) =~= old_b.map_values(f).push(strip_cr(t)));
                assert(lines(s) =~= b@.map_values(f) + lines(r));
            }
            start = i + 1;
        }
        i = i + 1;
    }
    proof {
        let f = |p: (usize, usize)| s.subrange(p.0 as int, p.1 as int);
        let rest = s.skip(start as int);
        if start < n {
            assert forall|j: int| 0 <= j < rest.len() implies rest[j] != '\n' by {
                assert(rest[j] == s[start + j]);
            }
            lemma_lines_single(rest);
        } else {
            assert(rest.len() == 0);
            assert(lines(rest) =~= Seq::<Seq<char>>::empty());
            assert(lines(s) =~= b@.map_values(f));
        }
    }
    if start < n {
        let ghost old_b = b@;
        b.push((start, n));
        proof {
            let f = |p: (usize, usize)| s.subrange(p.0 as int, p.1 as int);
            assert(s.skip(start as int) =~= s.subrange(start as int, n as int));
            assert(b@.map_values(f) =~= old_b.map_values(f).push(s.subrange(start as int, n as int)));
            assert(lines(s) =~= b@.map_values(f));
        }
    }
    proof {
        let f = |p: (usize, usize)| s.subrange(p.0 as int, p.1 as int);
        assert(lines(s) =~= b@.map_values(f));
        assert forall|i: int| 0 <= i < b@.len() implies chars@.subrange(
            b@[i].0 as int,
            b@[i].1 as int,
        ) == lines(chars@)[i] by {
            assert(lines(s)[i] == b@.map_values(f)[i]);
        }
    }
    b
}

/// The pair that `split_once(':')` gives of `chars[lo..hi]`.
pub fn split_colon_at(chars: &Vec<char>, lo: usize, hi: usize) -> (r: Option<(String, String)>)
    requires
        lo <= hi <= chars.len(),
    ensures
        match split_colon(chars@.subrange(lo as int, hi as int)) {
            Some(p) => r matches Some(q) && q.0@ == p.0 && q.1@ == p.1,
            None => r is None,
        },
{
    let ghost l = chars@.subrange(lo as int, hi as int);
    let mut i = lo;
    while i < hi && chars[i] != ':'
        invariant
            lo <= i <= hi <= chars.len(),
            l == chars@.subrange(lo as int, hi as int),
            forall|j: int| lo <= j < i ==> chars@[j] != ':',
        decreases hi - i,
    {
        i = i + 1;
    }
    proof {
        assert forall|j: int| 0 <= j < i - lo implies l[j] != ':' by {
            assert(l[j] == chars@[lo + j]);
        }
        if i < hi {
            assert(l[i - lo] == chars@[i as int]);
        }
        lemma_first_index_at(l, ':', i - lo);
    }
    if i < hi {
        let name = string_of(chars, lo, i);
        let value = string_of(chars, i + 1, hi);
        proof {
            assert(l.take(i - lo) =~= chars@.subrange(lo as int, i as int));
            assert(l.skip(i - lo + 1) =~= chars@.subrange(i + 1, hi as int));
        }
        Some((name, value))
    } else {
        None
    }
}

/// The records of a text, one per line: `None` when some line holds no colon
/// (a file in which each line is `name:value`).
pub fn parse_entries(text: &str) -> (r: Option<Vec<(String, String)>>)
    ensures
        match entries_of(lines(text@)) {
            Some(es) => r is Some && pairs_view(r->0@) == es,
            None => r is None,
        },
{
    let chars = chars_of(text);
    let bounds = line_bounds(&chars);
    let ghost ls = lines(chars@);
    let mut out: Vec<(String, String)> = Vec::new();
    let mut i: usize = 0;
    while i < bounds.len()
        invariant
            chars@ == text@,
            ls == lines(chars@),
            bounds@.len() == ls.len(),
            forall|k: int|
                0 <= k < bounds@.len() ==> {
                    &&& (#[trigger] bounds@[k]).0 <= bounds@[k].1 <= chars@.len()
                    &&& chars@.subrange(bounds@[k].0 as int, bounds@[k].1 as int) == ls[k]
                },
            i <= bounds@.len(),
            out@.len() == i,
            forall|k: int| 0 <= k < i ==> (#[trigger] split_colon(ls[k])) is Some,
            forall|k: int|
                0 <= k < i ==> (#[trigger] pairs_view(out@)[k]) == split_colon(ls[k])->0,
        decreases bounds@.len() - i,
    {
        let (lo, hi) = bounds[i];
        match split_colon_at(&chars, lo, hi) {
            Some(p) => {
                let ghost old_out = out@;
                out.push(p);
                proof {
                    assert forall|k: int| 0 <= k < i + 1 implies (#[trigger] pairs_view(
                        out@,
                    )[k]) == split_colon(ls[k])->0 by {
                        if k < i {
                            assert(pairs_view(out@)[k] == pairs_view(old_out)[k]);
                        }
                    }
                }
            },
            None => {
                proof {
                    assert(split_colon(ls[i as int]) is None);
                }
                return None;
            },
        }
        i = i + 1;
    }
    proof {
        assert(pairs_view(out@) =~= ls.map_values(|l: Seq<char>| split_colon(l)->0));
    }
    Some(out)
}

/// Position of the last pair named `key`, if any: what a map collected from
/// the pairs holds for `key`.
pub fn find_last(entries: &Vec<(String, String)>, key: &String) -> (r: Option<usize>)
    ensures
        match r {
            Some(j) => {
                &&& j < entries@.len()
                &&& entries@[j as int].0@ == key@
                &&& pairs_map(pairs_view(entries@)).contains_key(key@)
                &&& pairs_map(pairs_view(entries@))[key@] == entries@[j as int].1@
            },
            None => !pairs_map(pairs_view(entries@)).contains_key(key@),
        },
{
    let ghost s = pairs_view(entries@);
    let mut i = entries.len();
    while i > 0
        invariant
            i <= entries@.len(),
            s == pairs_view(entries@),
            forall|j: int| i <= j < entries@.len() ==> s[j].0 != key@,
        decreases i,
    {
        if entries[i - 1].0 == *key {
            proof {
                lemma_pairs_map_last(s, key@, i - 1);
            }
            return Some(i - 1);
        }
        i = i - 1;
    }
    proof {
        lemma_pairs_map_absent(s, key@);
    }
    None
}

/// The string `a` followed by `b`.
pub fn concat(a: &str, b: &str) -> (s: String)
    ensures
        s@ == a@ + b@,
{
    let mut s = a.to_owned();
    s.append(b);
    s
}

/// The decimal digit for `d < 10`.
pub open spec fn digit_char(d: int) -> char {
    (48 + d) as char
}

/// The decimal digits of a natural number, most significant first, no leading zeros.
pub open spec fn nat_decimal(n: nat) -> Seq<char>
    decreases n,
{
    if n < 10 {
        seq![digit_char(n as int)]
    } else {
        nat_decimal(n / 10).push(digit_char((n % 10) as int))
    }
}

/// An integer written in decimal, as `to_string` writes it: a minus sign
/// before the digits of a negative number.
pub open spec fn int_decimal(n: int) -> Seq<char> {
    if n < 0 {
        seq!['-'] + nat_decimal((-n) as nat)
    } else {
        nat_decimal(n as nat)
    }
}

fn push_digits(s: &mut String, m: u64)
    ensures
        final(s)@ == old(s)@ + nat_decimal(m as nat),
    decreases m,
{
    if m >= 10 {
        push_digits(s, m / 10);
    }
    let d = (m % 10) as u8;
    s.push((48 + d) as char);
    proof {
        if m >= 10 {
            assert(nat_decimal(m as nat) == nat_decimal((m / 10) as nat).push(digit_char((m % 10) as int)));
        }
    }
}

/// `n` written in decimal.
pub fn decimal_string(n: i64) -> (s: String)
    ensures
        s@ == int_decimal(n as int),
{
    let mut s = String::new();
    if n < 0 {
        s.push('-');
        let m: u64 = ((-(n + 1)) as u64) + 1;
        push_digits(&mut s, m);
    } else {
        push_digits(&mut s, n as u64);
    }
    s
}

/// Name-value pairs read as a map: a later pair for a name wins, as when the
/// pairs are collected into a map.
pub struct StringMap {
    pub entries: Vec<(String, String)>,
}

impl View for StringMap {
    type V = Map<Seq<char>, Seq<char>>;

    open spec fn view(&self) -> Map<Seq<char>, Seq<char>> {
        pairs_map(pairs_view(self.entries@))
    }
}

impl StringMap {
    /// The empty map.
    pub fn new() -> (m: StringMap)
        ensures
            m@ == Map::<Seq<char>, Seq<char>>::empty(),
            m.entries@.len() == 0,
    {
        let m = StringMap { entries: Vec::new() };
        assert(pairs_view(m.entries@) =~= Seq::<(Seq<char>, Seq<char>)>::empty());
        m
    }

    /// `key` now maps to `value`; every other name keeps its value.
    pub fn insert(&mut self, key: String, value: String)
        ensures
            final(self)@ == old(self)@.insert(key@, value@),
            final(self).entries@ == old(self).entries@.push((key, value)),
    {
        let ghost before = self.entries@;
        self.entries.push((key, value));
        proof {
            assert(pairs_view(self.entries@).drop_last() =~= pairs_view(before));
        }
    }

    /// The value of `key`, if the map has one.
    pub fn get(&self, key: &str) -> (r: Option<String>)
        ensures
            match r {
                Some(v) => self@.contains_key(key@) && v@ == self@[key@],
                None => !self@.contains_key(key@),
            },
    {
        let k = key.to_owned();
        match find_last(&self.entries, &k) {
            Some(j) => Some(self.entries[j].1.clone()),
            None => None,
        }
    }

    /// Whether the map has a value for `key`.
    pub fn contains_key(&self, key: &str) -> (b: bool)
        ensures
            b == self@.contains_key(key@),
    {
        let k = key.to_owned();
        find_last(&self.entries, &k).is_some()
    }
}

} // verus!
