//! Character-level string operations: ordering, whitespace trimming,
//! substring search and splitting of backslash-separated paths.
use vstd::prelude::*;

verus! {

broadcast use vstd::string::group_string_axioms;

/// Three-way result of comparing two strings.
#[derive(PartialEq, Eq, Structural, Clone, Copy, Debug)]
pub enum Order {
    Less,
    Equal,
    Greater,
}

/// Lexicographic order on character sequences, comparing code points.
/// For valid UTF-8 this is the same order as byte-wise comparison, which is
/// how `String` is ordered.
pub open spec fn chars_less(a: Seq<char>, b: Seq<char>) -> bool
    decreases a.len(),
{
    if a.len() == 0 {
        b.len() > 0
    } else if b.len() == 0 {
        false
    } else if a[0] != b[0] {
        (a[0] as int) < (b[0] as int)
    } else {
        chars_less(a.drop_first(), b.drop_first())
    }
}

/// The three-way comparison of two character sequences.
pub open spec fn order_of(a: Seq<char>, b: Seq<char>) -> Order {
    if a == b {
        Order::Equal
    } else if chars_less(a, b) {
        Order::Less
    } else {
        Order::Greater
    }
}

/// `chars_less` is irreflexive.
pub proof fn lemma_less_irreflexive(a: Seq<char>)
    ensures
        !chars_less(a, a),
    decreases a.len(),
{
    if a.len() > 0 {
        lemma_less_irreflexive(a.drop_first());
    }
}

/// Two distinct sequences are ordered one way or the other, never both.
pub proof fn lemma_less_total(a: Seq<char>, b: Seq<char>)
    ensures
        a != b ==> (chars_less(a, b) || chars_less(b, a)),
        !(chars_less(a, b) && chars_less(b, a)),
        chars_less(a, b) ==> a != b,
    decreases a.len(),
{
    lemma_less_irreflexive(a);
    if a.len() > 0 && b.len() > 0 && a[0] == b[0] {
        lemma_less_total(a.drop_first(), b.drop_first());
        if a.drop_first() == b.drop_first() {
            assert(a =~= seq![a[0]] + a.drop_first());
            assert(b =~= seq![b[0]] + b.drop_first());
        }
    } else if a.len() > 0 && b.len() > 0 {
        assert((a[0] as int) != (b[0] as int));
    } else if a.len() == 0 && b.len() == 0 {
        assert(a =~= b);
    }
}

/// `chars_less` is transitive.
pub proof fn lemma_less_trans(a: Seq<char>, b: Seq<char>, c: Seq<char>)
    requires
        chars_less(a, b),
        chars_less(b, c),
    ensures
        chars_less(a, c),
    decreases a.len(),
{
    if a.len() > 0 && b.len() > 0 && c.len() > 0 {
        if a[0] == b[0] && b[0] == c[0] {
            lemma_less_trans(a.drop_first(), b.drop_first(), c.drop_first());
        }
    }
}

/// `a` comes before `b` exactly when `a` is a proper prefix of `b`, or, at
/// the first position where they differ, `a` holds the smaller character.
pub proof fn lemma_less_is_lexicographic(a: Seq<char>, b: Seq<char>)
    ensures
        chars_less(a, b) <==> ((a.len() < b.len() && b.take(a.len() as int) == a) || exists|i: int|
            0 <= i < a.len() && i < b.len() && #[trigger] a.take(i) == b.take(i) && (a[i] as int) < (b[i] as int)),
    decreases a.len(),
{
    let differs = exists|i: int|
        0 <= i < a.len() && i < b.len() && #[trigger] a.take(i) == b.take(i) && (a[i] as int) < (b[i] as int);
    if a.len() == 0 {
        assert(b.take(0) =~= a);
    } else if b.len() == 0 {
    } else if a[0] != b[0] {
        if a.len() < b.len() && b.take(a.len() as int) == a {
            assert(b.take(a.len() as int)[0] == b[0]);
        }
        if differs {
            let i = choose|i: int|
                0 <= i < a.len() && i < b.len() && #[trigger] a.take(i) == b.take(i) && (a[i] as int) < (b[i] as int);
            if i > 0 {
                assert(a.take(i)[0] == b.take(i)[0]);
            }
        }
        if (a[0] as int) < (b[0] as int) {
            assert(a.take(0) =~= b.take(0));
        }
    } else {
        let a1 = a.drop_first();
        let b1 = b.drop_first();
        lemma_less_is_lexicographic(a1, b1);
        let differs1 = exists|i: int|
            0 <= i < a1.len() && i < b1.len() && #[trigger] a1.take(i) == b1.take(i) && (a1[i] as int) < (b1[i] as int);
        if differs {
            let i = choose|i: int|
                0 <= i < a.len() && i < b.len() && #[trigger] a.take(i) == b.take(i) && (a[i] as int) < (b[i] as int);
            assert(i > 0);
            assert(a1.take(i - 1) =~= a.take(i).drop_first());
            assert(b1.take(i - 1) =~= b.take(i).drop_first());
            assert(a1[i - 1] == a[i] && b1[i - 1] == b[i]);
            assert(differs1);
        }
        if differs1 {
            let i = choose|i: int|
                0 <= i < a1.len() && i < b1.len() && #[trigger] a1.take(i) == b1.take(i) && (a1[i] as int) < (b1[i] as int);
            assert(a.take(i + 1) =~= seq![a[0]] + a1.take(i));
            assert(b.take(i + 1) =~= seq![b[0]] + b1.take(i));
            assert(a[i + 1] == a1[i] && b[i + 1] == b1[i]);
            assert(differs);
        }
        if a.len() < b.len() && b.take(a.len() as int) == a {
            assert(b1.take(a1.len() as int) =~= b.take(a.len() as int).drop_first());
        }
        if a1.len() < b1.len() && b1.take(a1.len() as int) == a1 {
            assert(b.take(a.len() as int) =~= seq![b[0]] + b1.take(a1.len() as int));
            assert(a =~= seq![a[0]] + a1);
        }
    }
}

/// Comparing two sequences that agree on their first `i` characters is the
/// same as comparing what follows.
pub proof fn lemma_order_skip(a: Seq<char>, b: Seq<char>, i: int)
    requires
        0 <= i <= a.len(),
        i <= b.len(),
        a.take(i) == b.take(i),
    ensures
        chars_less(a, b) == chars_less(a.skip(i), b.skip(i)),
        (a == b) == (a.skip(i) == b.skip(i)),
    decreases i,
{
    if i > 0 {
        assert(a[0] == a.take(i)[0]);
        assert(b[0] == b.take(i)[0]);
        assert(a.drop_first().take(i - 1) =~= a.take(i).drop_first());
        assert(b.drop_first().take(i - 1) =~= b.take(i).drop_first());
        lemma_order_skip(a.drop_first(), b.drop_first(), i - 1);
        assert(a.drop_first().skip(i - 1) =~= a.skip(i));
        assert(b.drop_first().skip(i - 1) =~= b.skip(i));
        assert(a =~= seq![a[0]] + a.drop_first());
        assert(b =~= seq![b[0]] + b.drop_first());
    } else {
        assert(a.skip(0) =~= a);
        assert(b.skip(0) =~= b);
    }
}

/// Compares two character vectors lexicographically.
pub fn compare_chars(a: &Vec<char>, b: &Vec<char>) -> (r: Order)
    ensures
        r == order_of(a@, b@),
{
    let n = if a.len() < b.len() {
        a.len()
    } else {
        b.len()
    };
    let mut i: usize = 0;
    while i < n
        invariant
            n <= a@.len(),
            n <= b@.len(),
            n == a@.len() || n == b@.len(),
            0 <= i <= n,
            a@.take(i as int) == b@.take(i as int),
        decreases n - i,
    {
        if a[i] != b[i] {
            proof {
                lemma_order_skip(a@, b@, i as int);
                lemma_less_total(a@.skip(i as int), b@.skip(i as int));
                assert(a@.skip(i as int)[0] == a@[i as int]);
                assert(b@.skip(i as int)[0] == b@[i as int]);
            }
            if a[i] < b[i] {
                return Order::Less;
            } else {
                return Order::Greater;
            }
        }
        proof {
            assert(a@.take(i + 1) =~= a@.take(i as int).push(a@[i as int]));
            assert(b@.take(i + 1) =~= b@.take(i as int).push(b@[i as int]));
        }
        i = i + 1;
    }
    proof {
        lemma_order_skip(a@, b@, i as int);
        lemma_less_total(a@, b@);
    }
    if a.len() == b.len() {
        proof {
            assert(a@.skip(i as int) =~= b@.skip(i as int));
        }
        Order::Equal
    } else if a.len() < b.len() {
        Order::Less
    } else {
        Order::Greater
    }
}

/// Compares two strings character by character.
pub fn compare_str(a: &str, b: &str) -> (r: Order)
    ensures
        r == order_of(a@, b@),
{
    let ca = chars_of(a);
    let cb = chars_of(b);
    compare_chars(&ca, &cb)
}

/// Whether two strings hold the same characters.
pub fn str_equal(a: &str, b: &str) -> (r: bool)
    ensures
        r == (a@ == b@),
{
    match compare_str(a, b) {
        Order::Equal => true,
        _ => false,
    }
}

/// Copies the characters of a string into a vector.
pub fn chars_of(s: &str) -> (v: Vec<char>)
    ensures
        v@ == s@,
{
    let mut v: Vec<char> = Vec::new();
    for c in it: s.chars()
        invariant
            it.seq() == s@,
            v@ == s@.take(it.index() as int),
    {
        v.push(c);
    }
    assert(v@ =~= s@);
    v
}

/// The characters with the Unicode `White_Space` property, which is what
/// `char::is_whitespace` and `str::trim` go by.
pub open spec fn is_white_space(c: char) -> bool {
    let n = c as int;
    ||| 0x09 <= n <= 0x0d
    ||| n == 0x20
    ||| n == 0x85
    ||| n == 0xa0
    ||| n == 0x1680
    ||| 0x2000 <= n <= 0x200a
    ||| n == 0x2028
    ||| n == 0x2029
    ||| n == 0x202f
    ||| n == 0x205f
    ||| n == 0x3000
}

/// Whether `c` is a Unicode white-space character.
pub fn is_white_space_char(c: char) -> (r: bool)
    ensures
        r == is_white_space(c),
{
    ('\u{09}' <= c && c <= '\u{0d}') || c == ' ' || c == '\u{85}' || c == '\u{a0}' || c
        == '\u{1680}' || ('\u{2000}' <= c && c <= '\u{200a}') || c == '\u{2028}' || c == '\u{2029}'
        || c == '\u{202f}' || c == '\u{205f}' || c == '\u{3000}'
}

/// `s` without its leading white space.
pub open spec fn trim_start_chars(s: Seq<char>) -> Seq<char>
    decreases s.len(),
{
    if s.len() > 0 && is_white_space(s[0]) {
        trim_start_chars(s.drop_first())
    } else {
        s
    }
}

/// `s` without its trailing white space.
pub open spec fn trim_end_chars(s: Seq<char>) -> Seq<char>
    decreases s.len(),
{
    if s.len() > 0 && is_white_space(s.last()) {
        trim_end_chars(s.drop_last())
    } else {
        s
    }
}

/// `s` without leading and trailing white space.
pub open spec fn trimmed(s: Seq<char>) -> Seq<char> {
    trim_end_chars(trim_start_chars(s))
}

/// Removes leading and trailing white space.
pub fn trim(s: &str) -> (r: &str)
    ensures
        r@ == trimmed(s@),
{
    let cs = chars_of(s);
    let n = cs.len();
    let mut a: usize = 0;
    proof {
        assert(s@.skip(0) =~= s@);
    }
    while a < n
        invariant
            cs@ == s@,
            n == s@.len(),
            0 <= a <= n,
            trim_start_chars(s@) == trim_start_chars(s@.skip(a as int)),
        ensures
            0 <= a <= n,
            trim_start_chars(s@) == trim_start_chars(s@.skip(a as int)),
            a == n || !is_white_space(s@[a as int]),
        decreases n - a,
    {
        if !is_white_space_char(cs[a]) {
            break;
        }
        proof {
            assert(s@.skip(a as int).drop_first() =~= s@.skip(a + 1));
        }
        a = a + 1;
    }
    proof {
        if a < n {
            assert(s@.skip(a as int)[0] == s@[a as int]);
        } else {
            assert(s@.skip(a as int) =~= Seq::<char>::empty());
        }
    }
    assert(trim_start_chars(s@) == s@.skip(a as int));
    let mut b: usize = n;
    proof {
        assert(s@.subrange(a as int, n as int) =~= s@.skip(a as int));
    }
    while b > a
        invariant
            cs@ == s@,
            n == s@.len(),
            0 <= a <= b <= n,
            trimmed(s@) == trim_end_chars(s@.subrange(a as int, b as int)),
        ensures
            0 <= a <= b <= n,
            trimmed(s@) == trim_end_chars(s@.subrange(a as int, b as int)),
            b == a || !is_white_space(s@[b - 1]),
        decreases b - a,
    {
        if !is_white_space_char(cs[b - 1]) {
            break;
        }
        proof {
            assert(s@.subrange(a as int, b as int).drop_last() =~= s@.subrange(a as int, b - 1));
        }
        b = b - 1;
    }
    proof {
        if b > a {
            assert(s@.subrange(a as int, b as int).last() == s@[b - 1]);
        } else {
            assert(s@.subrange(a as int, b as int) =~= Seq::<char>::empty());
        }
    }
    s.substring_char(a, b)
}

/// `needle` occurs in `hay` starting at position `i`.
pub open spec fn occurs_at(hay: Seq<char>, needle: Seq<char>, i: int) -> bool {
    0 <= i && i + needle.len() <= hay.len() && hay.subrange(i, i + needle.len()) == needle
}

/// `needle` occurs somewhere in `hay`.
pub open spec fn contains_chars(hay: Seq<char>, needle: Seq<char>) -> bool {
    exists|i: int| occurs_at(hay, needle, i)
}

/// Whether `needle` occurs in `hay` at position `i`.
fn matches_at(hay: &Vec<char>, needle: &Vec<char>, i: usize) -> (r: bool)
    requires
        i + needle@.len() <= hay@.len(),
    ensures
        r == occurs_at(hay@, needle@, i as int),
{
    let hl = hay.len();
    let mut j: usize = 0;
    while j < needle.len()
        invariant
            hl == hay@.len(),
            i + needle@.len() <= hay@.len(),
            0 <= j <= needle@.len(),
            forall|k: int| 0 <= k < j ==> hay@[i + k] == needle@[k],
        decreases needle@.len() - j,
    {
        if hay[i + j] != needle[j] {
            assert(hay@.subrange(i as int, i + needle@.len())[j as int] != needle@[j as int]);
            return false;
        }
        j = j + 1;
    }
    assert(hay@.subrange(i as int, i + needle@.len()) =~= needle@);
    true
}

/// Whether `needle` occurs as a substring of `hay`.
pub fn contains_str(hay: &str, needle: &str) -> (r: bool)
    ensures
        r == contains_chars(hay@, needle@),
{
    let h = chars_of(hay);
    let nd = chars_of(needle);
    if nd.len() > h.len() {
        return false;
    }
    let last = h.len() - nd.len();
    let mut i: usize = 0;
    loop
        invariant
            h@ == hay@,
            nd@ == needle@,
            last + nd@.len() == h@.len(),
            0 <= i <= last,
            forall|k: int| 0 <= k < i ==> !occurs_at(hay@, needle@, k),
        decreases last - i,
    {
        if matches_at(&h, &nd, i) {
            return true;
        }
        if i == last {
            return false;
        }
        i = i + 1;
    }
}

/// Number of backslashes in `s`.
pub open spec fn backslash_count(s: Seq<char>) -> nat
    decreases s.len(),
{
    if s.len() == 0 {
        0
    } else {
        backslash_count(s.drop_last()) + if s.last() == '\\' {
            1nat
        } else {
            0nat
        }
    }
}

/// Reading `s` from the left: the non-empty backslash-separated pieces that
/// are already closed by a backslash, and the piece still being read.
pub open spec fn segment_state(s: Seq<char>) -> (Seq<Seq<char>>, Seq<char>)
    decreases s.len(),
{
    if s.len() == 0 {
        (Seq::empty(), Seq::empty())
    } else {
        let prev = segment_state(s.drop_last());
        if s.last() == '\\' {
            (
                if prev.1.len() > 0 {
                    prev.0.push(prev.1)
                } else {
                    prev.0
                },
                Seq::empty(),
            )
        } else {
            (prev.0, prev.1.push(s.last()))
        }
    }
}

/// The non-empty pieces of `s` between backslashes, in order.
pub open spec fn path_segments(s: Seq<char>) -> Seq<Seq<char>> {
    let st = segment_state(s);
    if st.1.len() > 0 {
        st.0.push(st.1)
    } else {
        st.0
    }
}

/// The views of a sequence of strings.
pub open spec fn strings_view(v: Seq<String>) -> Seq<Seq<char>> {
    v.map_values(|x: String| x@)
}

/// Splits `s` on backslashes and drops the empty pieces.
pub fn split_segments(s: &str) -> (r: Vec<String>)
    ensures
        strings_view(r@) == path_segments(s@),
{
    let cs = chars_of(s);
    let n = cs.len();
    let mut out: Vec<String> = Vec::new();
    let mut start: usize = 0;
    let mut i: usize = 0;
    while i < n
        invariant
            cs@ == s@,
            n == s@.len(),
            0 <= start <= i <= n,
            strings_view(out@) == segment_state(s@.take(i as int)).0,
            segment_state(s@.take(i as int)).1 == s@.subrange(start as int, i as int),
        decreases n - i,
    {
        proof {
            assert(s@.take(i + 1).drop_last() =~= s@.take(i as int));
        }
        if cs[i] == '\\' {
            if i > start {
                let piece = s.substring_char(start, i).to_owned();
                out.push(piece);
                assert(strings_view(out@) =~= segment_state(s@.take(i as int)).0.push(piece@));
            }
            start = i + 1;
            assert(s@.subrange(start as int, (i + 1) as int) =~= Seq::<char>::empty());
        } else {
            assert(s@.subrange(start as int, (i + 1) as int) =~= s@.subrange(
                start as int,
                i as int,
            ).push(cs@[i as int]));
        }
        i = i + 1;
    }
    assert(s@.take(n as int) =~= s@);
    if n > start {
        let piece = s.substring_char(start, n).to_owned();
        out.push(piece);
        assert(strings_view(out@) =~= segment_state(s@).0.push(piece@));
    }
    out
}

/// Length of the run of non-backslash characters that ends just before
/// position `j`.
pub open spec fn run_before(s: Seq<char>, j: int) -> nat
    decreases j,
{
    if j <= 0 || j > s.len() || s[j - 1] == '\\' {
        0
    } else {
        1 + run_before(s, j - 1)
    }
}

/// After a backslash the piece being read is empty.
pub proof fn lemma_segment_state_after_backslash(s: Seq<char>, j: int)
    requires
        0 <= j < s.len(),
        s[j] == '\\',
    ensures
        segment_state(s.take(j + 1)).1.len() == 0,
        path_segments(s.take(j + 1)) == path_segments(s.take(j)),
{
    assert(s.take(j + 1).drop_last() =~= s.take(j));
}

/// Reading a run of non-backslash characters that starts at a piece
/// boundary `a` only extends the piece being read.
pub proof fn lemma_segment_state_run(s: Seq<char>, a: int, j: int)
    requires
        0 <= a <= j <= s.len(),
        a == 0 || s[a - 1] == '\\',
        forall|t: int| a <= t < j ==> s[t] != '\\',
    ensures
        segment_state(s.take(j)) == (path_segments(s.take(a)), s.subrange(a, j)),
        path_segments(s.take(j)) == if j > a {
            path_segments(s.take(a)).push(s.subrange(a, j))
        } else {
            path_segments(s.take(a))
        },
        run_before(s, j) == j - a,
    decreases j - a,
{
    if j == a {
        if a == 0 {
            assert(s.take(0) =~= Seq::<char>::empty());
        } else {
            lemma_segment_state_after_backslash(s, a - 1);
        }
        assert(s.subrange(a, j) =~= Seq::<char>::empty());
    } else {
        lemma_segment_state_run(s, a, j - 1);
        assert(s.take(j).drop_last() =~= s.take(j - 1));
        assert(s.subrange(a, j) =~= s.subrange(a, j - 1).push(s[j - 1]));
    }
}

/// What `str::to_lowercase` gives for `s`: each character replaced by its
/// Unicode lowercase mapping.
pub uninterp spec fn lowercase(s: Seq<char>) -> Seq<char>;

/// Trusted: `str::to_lowercase`. Its result is only named, by `lowercase`;
/// the lowercase form of the empty string is empty.
#[verifier::external_body]
pub(crate) fn to_lowercase(s: &str) -> (r: String)
    ensures
        r@ == lowercase(s@),
        s@.len() == 0 ==> r@.len() == 0,
{
    s.to_lowercase()
}

/// Reading `b` after a prefix `a` that ends at a piece boundary continues
/// from the pieces of `a`.
proof fn lemma_segment_state_concat(a: Seq<char>, b: Seq<char>)
    requires
        a.len() == 0 || a.last() == '\\',
    ensures
        segment_state(a + b) == (path_segments(a) + segment_state(b).0, segment_state(b).1),
    decreases b.len(),
{
    if b.len() == 0 {
        assert(a + b =~= a);
        assert(path_segments(a) + Seq::<Seq<char>>::empty() =~= path_segments(a));
        if a.len() == 0 {
            assert(path_segments(a) =~= Seq::<Seq<char>>::empty());
        }
    } else {
        lemma_segment_state_concat(a, b.drop_last());
        assert((a + b).drop_last() =~= a + b.drop_last());
        assert((a + b).last() == b.last());
        let sb = segment_state(b.drop_last());
        if b.last() == '\\' && sb.1.len() > 0 {
            assert((path_segments(a) + sb.0).push(sb.1) =~= path_segments(a) + sb.0.push(sb.1));
        }
    }
}

/// The pieces of `a + b`, where `a` ends at a piece boundary, are those of
/// `a` followed by those of `b`.
pub proof fn lemma_path_segments_concat(a: Seq<char>, b: Seq<char>)
    requires
        a.len() == 0 || a.last() == '\\',
    ensures
        path_segments(a + b) == path_segments(a) + path_segments(b),
{
    lemma_segment_state_concat(a, b);
    let sb = segment_state(b);
    if sb.1.len() > 0 {
        assert((path_segments(a) + sb.0).push(sb.1) =~= path_segments(a) + sb.0.push(sb.1));
    }
}

/// Reading `s` from the left: the lines already ended by a newline, and
/// the line still being read.
pub open spec fn line_state(s: Seq<char>) -> (Seq<Seq<char>>, Seq<char>)
    decreases s.len(),
{
    if s.len() == 0 {
        (Seq::empty(), Seq::empty())
    } else {
        let prev = line_state(s.drop_last());
        if s.last() == '\n' {
            (prev.0.push(prev.1), Seq::empty())
        } else {
            (prev.0, prev.1.push(s.last()))
        }
    }
}

/// The non-blank lines of `s`, in order, each trimmed.
pub open spec fn nonblank_lines(s: Seq<char>) -> Seq<Seq<char>> {
    let st = line_state(s);
    st.0.push(st.1).map_values(|l: Seq<char>| trimmed(l)).filter(|l: Seq<char>| l.len() > 0)
}

/// Adding one line to a list of lines adds it, trimmed, to the non-blank
/// ones unless it is blank.
proof fn lemma_nonblank_push(lines: Seq<Seq<char>>, l: Seq<char>)
    ensures
        lines.push(l).map_values(|x: Seq<char>| trimmed(x)).filter(|x: Seq<char>| x.len() > 0) == if trimmed(l).len() > 0 {
            lines.map_values(|x: Seq<char>| trimmed(x)).filter(|x: Seq<char>| x.len() > 0).push(trimmed(l))
        } else {
            lines.map_values(|x: Seq<char>| trimmed(x)).filter(|x: Seq<char>| x.len() > 0)
        },
{
    reveal(Seq::filter);
    let f = |x: Seq<char>| trimmed(x);
    assert(lines.push(l).map_values(f).drop_last() =~= lines.map_values(f));
    assert(lines.push(l).map_values(f).last() == trimmed(l));
}

/// Splits `s` into lines, trims each, and keeps the non-blank ones.
pub fn trimmed_lines(s: &str) -> (r: Vec<String>)
    ensures
        strings_view(r@) == nonblank_lines(s@),
{
    let cs = chars_of(s);
    let n = cs.len();
    let mut out: Vec<String> = Vec::new();
    let mut start: usize = 0;
    let mut i: usize = 0;
    proof {
        reveal(Seq::filter);
        assert(s@.take(0) =~= Seq::<char>::empty());
        assert(Seq::<Seq<char>>::empty().map_values(|x: Seq<char>| trimmed(x)) =~= Seq::<Seq<char>>::empty());
    }
    while i < n
        invariant
            cs@ == s@,
            n == s@.len(),
            0 <= start <= i <= n,
            strings_view(out@) == line_state(s@.take(i as int)).0.map_values(|x: Seq<char>| trimmed(x)).filter(
                |x: Seq<char>| x.len() > 0,
            ),
            line_state(s@.take(i as int)).1 == s@.subrange(start as int, i as int),
        decreases n - i,
    {
        proof {
            assert(s@.take(i + 1).drop_last() =~= s@.take(i as int));
        }
        if cs[i] == '\n' {
            let line = trim(s.substring_char(start, i));
            let ghost before = out@;
            proof {
                lemma_nonblank_push(line_state(s@.take(i as int)).0, s@.subrange(start as int, i as int));
            }
            if !line.is_empty() {
                out.push(line.to_owned());
                assert(strings_view(out@) =~= strings_view(before).push(line@));
            }
            start = i + 1;
            assert(s@.subrange(start as int, (i + 1) as int) =~= Seq::<char>::empty());
        } else {
            assert(s@.subrange(start as int, (i + 1) as int) =~= s@.subrange(start as int, i as int).push(
                cs@[i as int],
            ));
        }
        i = i + 1;
    }
    assert(s@.take(n as int) =~= s@);
    let line = trim(s.substring_char(start, n));
    let ghost before = out@;
    proof {
        lemma_nonblank_push(line_state(s@).0, s@.subrange(start as int, n as int));
    }
    if !line.is_empty() {
        out.push(line.to_owned());
        assert(strings_view(out@) =~= strings_view(before).push(line@));
    }
    out
}

} // verus!
