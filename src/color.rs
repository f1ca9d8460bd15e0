use vstd::prelude::*;

verus! {

/// An RGB color. Each channel holds the IEEE-754 single-precision bit
/// pattern of its value, so the value is carried exactly as it was read.
#[derive(Clone, Copy, Debug, PartialEq, Eq, Structural)]
pub struct RgbColor {
    pub r: u32,
    pub g: u32,
    pub b: u32,
}

/// Why a color specification was rejected.
#[derive(Clone, Copy, Debug, PartialEq, Eq, Structural)]
pub enum ParseError {
    /// No `'('`, or no `')'` after it.
    MalformedDelimiters,
    /// Between the parentheses there are not exactly three comma-separated fields.
    WrongFieldCount,
    /// A field is not a number.
    InvalidNumber,
}

/// The three channel fields of a specification, trimmed, before they are read as numbers.
#[derive(Debug)]
pub struct ChannelFields {
    pub r: String,
    pub g: String,
    pub b: String,
}

/// Characters with the Unicode White_Space property.
pub open spec fn is_white(c: char) -> bool {
    let u = c as u32;
    (9 <= u && u <= 13) || u == 32 || u == 0x85 || u == 0xa0 || u == 0x1680 || (0x2000 <= u
        && u <= 0x200a) || u == 0x2028 || u == 0x2029 || u == 0x202f || u == 0x205f || u == 0x3000
}

/// The first index at or after `from` holding `c`, or `s.len()` if there is none.
pub open spec fn index_from(s: Seq<char>, c: char, from: int) -> int
    decreases s.len() - from,
{
    if from < 0 || from >= s.len() {
        s.len() as int
    } else if s[from] == c {
        from
    } else {
        index_from(s, c, from + 1)
    }
}

pub open spec fn trim_start(s: Seq<char>) -> Seq<char>
    decreases s.len(),
{
    if s.len() > 0 && is_white(s[0]) {
        trim_start(s.drop_first())
    } else {
        s
    }
}

pub open spec fn trim_end(s: Seq<char>) -> Seq<char>
    decreases s.len(),
{
    if s.len() > 0 && is_white(s.last()) {
        trim_end(s.drop_last())
    } else {
        s
    }
}

/// `s` without its leading and trailing whitespace.
pub open spec fn trimmed(s: Seq<char>) -> Seq<char> {
    trim_end(trim_start(s))
}

/// Index of the first `'('`.
pub open spec fn open_index(s: Seq<char>) -> int {
    index_from(s, '(', 0)
}

/// Index of the first `')'` after the first `'('`.
pub open spec fn close_index(s: Seq<char>) -> int {
    index_from(s, ')', open_index(s) + 1)
}

pub open spec fn has_delimiters(s: Seq<char>) -> bool {
    open_index(s) < s.len() && close_index(s) < s.len()
}

/// What stands between the delimiters.
pub open spec fn inner_text(s: Seq<char>) -> Seq<char> {
    s.subrange(open_index(s) + 1, close_index(s))
}

pub open spec fn first_comma(t: Seq<char>) -> int {
    index_from(t, ',', 0)
}

pub open spec fn second_comma(t: Seq<char>) -> int {
    index_from(t, ',', first_comma(t) + 1)
}

/// Splitting `t` on `','` gives exactly three fields: it holds exactly two commas.
pub open spec fn has_three_fields(t: Seq<char>) -> bool {
    &&& first_comma(t) < t.len()
    &&& second_comma(t) < t.len()
    &&& index_from(t, ',', second_comma(t) + 1) == t.len()
}

/// The `k`-th of the three comma-separated fields of `t`, untrimmed.
pub open spec fn raw_field(t: Seq<char>, k: int) -> Seq<char> {
    if k == 0 {
        t.subrange(0, first_comma(t))
    } else if k == 1 {
        t.subrange(first_comma(t) + 1, second_comma(t))
    } else {
        t.subrange(second_comma(t) + 1, t.len() as int)
    }
}

/// What splitting a color specification into its channel fields gives.
pub open spec fn fields_of(s: Seq<char>) -> Result<(Seq<char>, Seq<char>, Seq<char>), ParseError> {
    if !has_delimiters(s) {
        Err(ParseError::MalformedDelimiters)
    } else if !has_three_fields(inner_text(s)) {
        Err(ParseError::WrongFieldCount)
    } else {
        let t = inner_text(s);
        Ok((trimmed(raw_field(t, 0)), trimmed(raw_field(t, 1)), trimmed(raw_field(t, 2))))
    }
}

pub proof fn lemma_index_from_bounds(s: Seq<char>, c: char, from: int)
    requires
        0 <= from,
    ensures
        from <= index_from(s, c, from) <= s.len() || (from > s.len() && index_from(s, c, from)
            == s.len()),
        index_from(s, c, from) < s.len() ==> s[index_from(s, c, from)] == c,
        forall|k: int| from <= k < index_from(s, c, from) ==> s[k] != c,
    decreases s.len() - from,
{
    if from < s.len() && s[from] != c {
        lemma_index_from_bounds(s, c, from + 1);
    }
}

proof fn lemma_index_from_at(s: Seq<char>, c: char, from: int, j: int)
    requires
        0 <= from <= j <= s.len(),
        j < s.len() ==> s[j] == c,
        forall|k: int| from <= k < j ==> s[k] != c,
    ensures
        index_from(s, c, from) == j,
    decreases j - from,
{
    if from < j {
        lemma_index_from_at(s, c, from + 1, j);
    }
}

/// The text `(r,g,b)`.
pub open spec fn triple_text(r: Seq<char>, g: Seq<char>, b: Seq<char>) -> Seq<char> {
    seq!['('] + r + seq![','] + g + seq![','] + b + seq![')']
}

/// `f` can stand as a field: it holds no `','` and no `')'`.
pub open spec fn plain_field(f: Seq<char>) -> bool {
    forall|i: int| 0 <= i < f.len() ==> #[trigger] f[i] != ',' && f[i] != ')'
}

pub open spec fn all_white(w: Seq<char>) -> bool {
    forall|i: int| 0 <= i < w.len() ==> is_white(#[trigger] w[i])
}

/// Splitting the text `(r,g,b)` gives back `r`, `g` and `b`, trimmed.
pub proof fn lemma_fields_of_triple(r: Seq<char>, g: Seq<char>, b: Seq<char>)
    requires
        plain_field(r),
        plain_field(g),
        plain_field(b),
    ensures
        fields_of(triple_text(r, g, b)) == Ok::<_, ParseError>(
            (trimmed(r), trimmed(g), trimmed(b)),
        ),
{
    let s = triple_text(r, g, b);
    let t = r + seq![','] + g + seq![','] + b;
    let n = s.len() as int;
    assert(s =~= seq!['('] + t + seq![')']);
    assert(s[0] == '(');
    lemma_index_from_at(s, '(', 0, 0);
    assert forall|k: int| 1 <= k < n - 1 implies s[k] != ')' by {
        assert(s[k] == t[k - 1]);
        if k - 1 < r.len() {
            assert(t[k - 1] == r[k - 1]);
        } else if k - 1 == r.len() {
        } else if k - 1 < r.len() + 1 + g.len() {
            assert(t[k - 1] == g[k - 2 - r.len()]);
        } else if k - 1 == r.len() + 1 + g.len() {
        } else {
            assert(t[k - 1] == b[k - 3 - r.len() - g.len()]);
        }
    }
    lemma_index_from_at(s, ')', 1, n - 1);
    assert(inner_text(s) =~= t);
    let c1 = r.len() as int;
    let c2 = c1 + 1 + g.len();
    assert forall|k: int| 0 <= k < c1 implies t[k] != ',' by {
        assert(t[k] == r[k]);
    }
    lemma_index_from_at(t, ',', 0, c1);
    assert forall|k: int| c1 + 1 <= k < c2 implies t[k] != ',' by {
        assert(t[k] == g[k - c1 - 1]);
    }
    lemma_index_from_at(t, ',', c1 + 1, c2);
    assert forall|k: int| c2 + 1 <= k < t.len() implies t[k] != ',' by {
        assert(t[k] == b[k - c2 - 1]);
    }
    lemma_index_from_at(t, ',', c2 + 1, t.len() as int);
    assert(raw_field(t, 0) =~= r);
    assert(raw_field(t, 1) =~= g);
    assert(raw_field(t, 2) =~= b);
}

proof fn lemma_trim_start_white_prefix(w: Seq<char>, y: Seq<char>)
    requires
        all_white(w),
    ensures
        trim_start(w + y) == trim_start(y),
    decreases w.len(),
{
    if w.len() > 0 {
        assert((w + y).drop_first() =~= w.drop_first() + y);
        lemma_trim_start_white_prefix(w.drop_first(), y);
    } else {
        assert(w + y =~= y);
    }
}

proof fn lemma_trim_start_keeps_suffix(x: Seq<char>, y: Seq<char>)
    requires
        !all_white(x),
    ensures
        trim_start(x + y) == trim_start(x) + y,
    decreases x.len(),
{
    if is_white(x[0]) {
        assert((x + y).drop_first() =~= x.drop_first() + y);
        assert(!all_white(x.drop_first())) by {
            let i = choose|i: int| 0 <= i < x.len() && !is_white(#[trigger] x[i]);
            assert(x.drop_first()[i - 1] == x[i]);
        }
        lemma_trim_start_keeps_suffix(x.drop_first(), y);
    }
}

proof fn lemma_trim_end_white_suffix(x: Seq<char>, w: Seq<char>)
    requires
        all_white(w),
    ensures
        trim_end(x + w) == trim_end(x),
    decreases w.len(),
{
    if w.len() > 0 {
        assert((x + w).drop_last() =~= x + w.drop_last());
        lemma_trim_end_white_suffix(x, w.drop_last());
    } else {
        assert(x + w =~= x);
    }
}

proof fn lemma_trim_start_all_white(w: Seq<char>)
    requires
        all_white(w),
    ensures
        trim_start(w) =~= Seq::<char>::empty(),
    decreases w.len(),
{
    if w.len() > 0 {
        lemma_trim_start_all_white(w.drop_first());
    }
}

/// Whitespace before or after a field is not read: padding a field with
/// whitespace leaves it trimmed to the same text.
pub proof fn lemma_trim_padding(before: Seq<char>, f: Seq<char>, after: Seq<char>)
    requires
        all_white(before),
        all_white(after),
    ensures
        trimmed(before + f + after) == trimmed(f),
{
    assert(before + f + after =~= before + (f + after));
    lemma_trim_start_white_prefix(before, f + after);
    if all_white(f) {
        lemma_trim_start_white_prefix(f, after);
        lemma_trim_start_all_white(after);
        lemma_trim_start_all_white(f);
    } else {
        lemma_trim_start_keeps_suffix(f, after);
        lemma_trim_end_white_suffix(trim_start(f), after);
    }
}

proof fn lemma_padded_plain(w: Seq<char>, f: Seq<char>, v: Seq<char>)
    requires
        all_white(w),
        all_white(v),
        plain_field(f),
    ensures
        plain_field(w + f + v),
{
    let p = w + f + v;
    assert forall|i: int| 0 <= i < p.len() implies #[trigger] p[i] != ',' && p[i] != ')' by {
        if i < w.len() {
            assert(p[i] == w[i]);
        } else if i < w.len() + f.len() {
            assert(p[i] == f[i - w.len()]);
        } else {
            assert(p[i] == v[i - w.len() - f.len()]);
        }
    }
}

/// Whitespace around the fields of `(r,g,b)` changes nothing that is read from it.
pub proof fn lemma_whitespace_insensitive(
    r: Seq<char>,
    g: Seq<char>,
    b: Seq<char>,
    before: Seq<char>,
    after: Seq<char>,
)
    requires
        plain_field(r),
        plain_field(g),
        plain_field(b),
        all_white(before),
        all_white(after),
    ensures
        fields_of(triple_text(before + r + after, before + g + after, before + b + after))
            == fields_of(triple_text(r, g, b)),
{
    lemma_padded_plain(before, r, after);
    lemma_padded_plain(before, g, after);
    lemma_padded_plain(before, b, after);
    lemma_fields_of_triple(r, g, b);
    lemma_fields_of_triple(before + r + after, before + g + after, before + b + after);
    lemma_trim_padding(before, r, after);
    lemma_trim_padding(before, g, after);
    lemma_trim_padding(before, b, after);
}

fn is_white_char(c: char) -> (r: bool)
    ensures
        r == is_white(c),
{
    let u = c as u32;
    (9 <= u && u <= 13) || u == 32 || u == 0x85 || u == 0xa0 || u == 0x1680 || (0x2000 <= u
        && u <= 0x200a) || u == 0x2028 || u == 0x2029 || u == 0x202f || u == 0x205f || u == 0x3000
}

/// Finds the first `c` at or after `from`; `s@.len()` if there is none.
fn find_from(s: &str, c: char, from: usize) -> (r: usize)
    requires
        from <= s@.len(),
    ensures
        r == index_from(s@, c, from as int),
{
    let n = s.unicode_len();
    let mut i = from;
    while i < n
        invariant
            from <= i <= n,
            n == s@.len(),
            index_from(s@, c, from as int) == index_from(s@, c, i as int),
        decreases n - i,
    {
        if s.get_char(i) == c {
            return i;
        }
        i = i + 1;
    }
    i
}

/// Narrows `[lo, hi)` of `s` to drop leading and trailing whitespace.
fn trim_bounds(s: &str, lo: usize, hi: usize) -> (r: (usize, usize))
    requires
        lo <= hi <= s@.len(),
    ensures
        lo <= r.0 <= r.1 <= hi,
        s@.subrange(r.0 as int, r.1 as int) == trimmed(s@.subrange(lo as int, hi as int)),
{
    let ghost t = s@.subrange(lo as int, hi as int);
    let mut i = lo;
    while i < hi && is_white_char(s.get_char(i))
        invariant
            lo <= i <= hi <= s@.len(),
            trim_start(t) == trim_start(s@.subrange(i as int, hi as int)),
        decreases hi - i,
    {
        assert(s@.subrange(i as int, hi as int).drop_first() =~= s@.subrange(
            i + 1,
            hi as int,
        ));
        i = i + 1;
    }
    let ghost front = s@.subrange(i as int, hi as int);
    assert(trim_start(front) == front);
    let mut j = hi;
    while j > i && is_white_char(s.get_char(j - 1))
        invariant
            lo <= i <= j <= hi <= s@.len(),
            trim_end(front) == trim_end(s@.subrange(i as int, j as int)),
        decreases j - i,
    {
        assert(s@.subrange(i as int, j as int).drop_last() =~= s@.subrange(i as int, j - 1));
        j = j - 1;
    }
    assert(trim_end(s@.subrange(i as int, j as int)) == s@.subrange(i as int, j as int));
    (i, j)
}

/// Splits a specification of the form `(r, g, b)` into its three trimmed
/// channel fields: the text between the first `'('` and the first `')'`
/// after it, split on `','`.
pub fn channel_fields(spec: &str) -> (res: Result<ChannelFields, ParseError>)
    ensures
        match (res, fields_of(spec@)) {
            (Ok(f), Ok((r, g, b))) => f.r@ == r && f.g@ == g && f.b@ == b,
            (Err(e), Err(d)) => e == d,
            _ => false,
        },
{
    let ghost s = spec@;
    let n = spec.unicode_len();
    let open = find_from(spec, '(', 0);
    if open >= n {
        return Err(ParseError::MalformedDelimiters);
    }
    proof {
        lemma_index_from_bounds(s, '(', 0);
    }
    let close = find_from(spec, ')', open + 1);
    if close >= n {
        return Err(ParseError::MalformedDelimiters);
    }
    proof {
        lemma_index_from_bounds(s, ')', open + 1);
    }
    let inner = spec.substring_char(open + 1, close);
    let ghost t = inner@;
    assert(t == inner_text(s));
    let m = inner.unicode_len();
    let c1 = find_from(inner, ',', 0);
    if c1 >= m {
        return Err(ParseError::WrongFieldCount);
    }
    proof {
        lemma_index_from_bounds(t, ',', 0);
    }
    let c2 = find_from(inner, ',', c1 + 1);
    if c2 >= m {
        return Err(ParseError::WrongFieldCount);
    }
    proof {
        lemma_index_from_bounds(t, ',', c1 + 1);
    }
    let c3 = find_from(inner, ',', c2 + 1);
    if c3 < m {
        return Err(ParseError::WrongFieldCount);
    }
    proof {
        lemma_index_from_bounds(t, ',', c2 + 1);
    }
    let (r0, r1) = trim_bounds(inner, 0, c1);
    let (g0, g1) = trim_bounds(inner, c1 + 1, c2);
    let (b0, b1) = trim_bounds(inner, c2 + 1, m);
    Ok(
        ChannelFields {
            r: String::from_str(inner.substring_char(r0, r1)),
            g: String::from_str(inner.substring_char(g0, g1)),
            b: String::from_str(inner.substring_char(b0, b1)),
        },
    )
}

impl RgbColor {
    /// Builds a color from the values read from its three channel fields,
    /// `None` standing for a field that is not a number. Values are kept as
    /// read: none is clamped to the unit range.
    pub fn from_channels(r: Option<u32>, g: Option<u32>, b: Option<u32>) -> (res: Result<
        RgbColor,
        ParseError,
    >)
        ensures
            res == (match (r, g, b) {
                (Some(x), Some(y), Some(z)) => Ok(RgbColor { r: x, g: y, b: z }),
                _ => Err(ParseError::InvalidNumber),
            }),
    {
        match (r, g, b) {
            (Some(x), Some(y), Some(z)) => Ok(RgbColor { r: x, g: y, b: z }),
            _ => Err(ParseError::InvalidNumber),
        }
    }
}

/// Sets `background` to a successfully parsed color; a failed parse leaves it as it was.
pub fn apply_parsed(background: &mut RgbColor, parsed: Result<RgbColor, ParseError>)
    ensures
        *final(background) == (match parsed {
            Ok(c) => c,
            Err(_) => *old(background),
        }),
{
    if let Ok(c) = parsed {
        *background = c;
    }
}

} // verus!
