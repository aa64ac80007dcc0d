use vstd::prelude::*;

verus! {

/// The characters of a string, in order.
pub fn chars_of(s: &str) -> (v: Vec<char>)
    ensures
        v@ == s@,
{
    let mut v: Vec<char> = Vec::new();
    for c in it: s.chars()
        invariant
            v@ == it.seq().take(it.index() as int),
    {
        v.push(c);
        assert(v@ =~= it.seq().take(it.index() + 1));
    }
    assert(v@ =~= s@);
    v
}

/// Whether the character has the Unicode White_Space property, as
/// `char::is_whitespace` reads it: tab, line feed, vertical tab, form feed,
/// carriage return, space, next line, no-break space, ogham space mark, the
/// spaces from en quad to hair space, line and paragraph separator, narrow
/// no-break space, medium mathematical space and ideographic space.
pub open spec fn is_white_space(c: char) -> bool {
    let u = c as u32;
    ||| 0x9 <= u <= 0xD
    ||| u == 0x20
    ||| u == 0x85
    ||| u == 0xA0
    ||| u == 0x1680
    ||| 0x2000 <= u <= 0x200A
    ||| u == 0x2028
    ||| u == 0x2029
    ||| u == 0x202F
    ||| u == 0x205F
    ||| u == 0x3000
}

/// Whether the character is white space.
pub fn char_is_whitespace(c: char) -> (b: bool)
    ensures
        b == is_white_space(c),
{
    let u = c as u32;
    (0x9 <= u && u <= 0xD) || u == 0x20 || u == 0x85 || u == 0xA0 || u == 0x1680 || (0x2000 <= u && u
        <= 0x200A) || u == 0x2028 || u == 0x2029 || u == 0x202F || u == 0x205F || u == 0x3000
}

/// `FromIterator<char>` for `String`: the string made of these characters.
#[verifier::external_body]
pub(crate) fn string_of(chars: &Vec<char>) -> (s: String)
    ensures
        s@ == chars@,
{
    chars.iter().collect()
}

/// The characters `s[lo..hi]`.
pub fn copy_range(s: &Vec<char>, lo: usize, hi: usize) -> (r: Vec<char>)
    requires
        lo <= hi <= s@.len(),
    ensures
        r@ == s@.subrange(lo as int, hi as int),
{
    let mut r: Vec<char> = Vec::new();
    let mut i: usize = lo;
    while i < hi
        invariant
            lo <= i <= hi,
            hi <= s@.len(),
            r@ == s@.subrange(lo as int, i as int),
        decreases hi - i,
    {
        r.push(s[i]);
        assert(r@ =~= s@.subrange(lo as int, i + 1));
        i = i + 1;
    }
    r
}

/// The first position from `i` on that holds no white space, or the length.
pub open spec fn skip_white_space(s: Seq<char>, i: int) -> int
    decreases s.len() - i,
{
    if i >= s.len() {
        s.len() as int
    } else if !is_white_space(s[i]) {
        i
    } else {
        skip_white_space(s, i + 1)
    }
}

/// The end of the content up to `j`: the largest position `e <= j` that is 0
/// or follows a character that is not white space.
pub open spec fn content_end(s: Seq<char>, j: int) -> int
    decreases j,
{
    if j <= 0 {
        0
    } else if !is_white_space(s[j - 1]) {
        j
    } else {
        content_end(s, j - 1)
    }
}

/// `str::trim`: the text without its leading and trailing white space.
pub open spec fn trimmed(s: Seq<char>) -> Seq<char> {
    let lo = skip_white_space(s, 0);
    let hi = content_end(s, s.len() as int);
    if lo < hi {
        s.subrange(lo, hi)
    } else {
        Seq::empty()
    }
}

/// The start of the word that ends at `j`: the position after the last white
/// space before `j`, or 0.
pub open spec fn word_start(s: Seq<char>, j: int) -> int
    decreases j,
{
    if j <= 0 {
        0
    } else if is_white_space(s[j - 1]) {
        j
    } else {
        word_start(s, j - 1)
    }
}

/// `s.split_whitespace().last().unwrap_or(s)`: the last word of the text, or
/// the whole text when it holds no word.
pub open spec fn last_word_or_all(s: Seq<char>) -> Seq<char> {
    let e = content_end(s, s.len() as int);
    if e == 0 {
        s
    } else {
        s.subrange(word_start(s, e), e)
    }
}

/// `p` is a prefix of `t`.
pub open spec fn has_prefix(t: Seq<char>, p: Seq<char>) -> bool {
    p.len() <= t.len() && t.subrange(0, p.len() as int) == p
}

/// The first position from `i` on that holds no white space, or the length.
fn skip_ws_exec(s: &Vec<char>, i: usize) -> (r: usize)
    requires
        i <= s@.len(),
    ensures
        r == skip_white_space(s@, i as int),
{
    let mut k = i;
    while k < s.len() && char_is_whitespace(s[k])
        invariant
            i <= k <= s@.len(),
            skip_white_space(s@, i as int) == skip_white_space(s@, k as int),
        decreases s@.len() - k,
    {
        k = k + 1;
    }
    k
}

/// The end of the content up to `j`.
fn content_end_exec(s: &Vec<char>, j: usize) -> (r: usize)
    requires
        j <= s@.len(),
    ensures
        r == content_end(s@, j as int),
{
    let mut k = j;
    while k > 0 && char_is_whitespace(s[k - 1])
        invariant
            k <= j <= s@.len(),
            content_end(s@, j as int) == content_end(s@, k as int),
        decreases k,
    {
        k = k - 1;
    }
    k
}

/// The start of the word that ends at `j`.
fn word_start_exec(s: &Vec<char>, j: usize) -> (r: usize)
    requires
        j <= s@.len(),
    ensures
        r == word_start(s@, j as int),
{
    let mut k = j;
    while k > 0 && !char_is_whitespace(s[k - 1])
        invariant
            k <= j <= s@.len(),
            word_start(s@, j as int) == word_start(s@, k as int),
        decreases k,
    {
        k = k - 1;
    }
    k
}

proof fn lemma_content_end_bounds(s: Seq<char>, j: int)
    requires
        0 <= j <= s.len(),
    ensures
        0 <= content_end(s, j) <= j,
    decreases j,
{
    if j > 0 && is_white_space(s[j - 1]) {
        lemma_content_end_bounds(s, j - 1);
    }
}

proof fn lemma_word_start_bounds(s: Seq<char>, j: int)
    requires
        0 <= j <= s.len(),
    ensures
        0 <= word_start(s, j) <= j,
    decreases j,
{
    if j > 0 && !is_white_space(s[j - 1]) {
        lemma_word_start_bounds(s, j - 1);
    }
}

/// `str::trim`.
pub fn trim(s: &Vec<char>) -> (r: Vec<char>)
    ensures
        r@ == trimmed(s@),
{
    let lo = skip_ws_exec(s, 0);
    let hi = content_end_exec(s, s.len());
    if lo < hi {
        proof {
            lemma_content_end_bounds(s@, s@.len() as int);
        }
        copy_range(s, lo, hi)
    } else {
        Vec::new()
    }
}

/// `s.split_whitespace().last().unwrap_or(s)`.
pub fn last_word(s: &Vec<char>) -> (r: Vec<char>)
    ensures
        r@ == last_word_or_all(s@),
{
    let e = content_end_exec(s, s.len());
    if e == 0 {
        copy_range(s, 0, s.len())
    } else {
        proof {
            lemma_content_end_bounds(s@, s@.len() as int);
            lemma_word_start_bounds(s@, e as int);
        }
        let b = word_start_exec(s, e);
        copy_range(s, b, e)
    }
}

/// Whether `p` is a prefix of `t`.
pub fn starts_with(t: &Vec<char>, p: &Vec<char>) -> (b: bool)
    ensures
        b == has_prefix(t@, p@),
{
    if p.len() > t.len() {
        return false;
    }
    let mut i: usize = 0;
    while i < p.len()
        invariant
            i <= p@.len() <= t@.len(),
            forall|k: int| 0 <= k < i ==> t@[k] == p@[k],
        decreases p@.len() - i,
    {
        if t[i] != p[i] {
            assert(t@.subrange(0, p@.len() as int)[i as int] != p@[i as int]);
            return false;
        }
        i = i + 1;
    }
    assert(t@.subrange(0, p@.len() as int) =~= p@);
    true
}

} // verus!
