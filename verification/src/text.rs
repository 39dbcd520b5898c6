//! Text normalization: trimming, case folding, and rejection of code-like
//! noise (import lines, comments, stack-frame fragments and the like) that
//! would otherwise masquerade as prompts.

use vstd::prelude::*;
use vstd::string::*;

verus! {

/// The pattern `p` occurs in `h` starting at position `i`.
pub open spec fn match_at(h: Seq<char>, p: Seq<char>, i: int) -> bool {
    0 <= i && i + p.len() <= h.len() && h.subrange(i, i + p.len() as int) == p
}

/// The pattern `p` occurs somewhere in `h`.
pub open spec fn has_sub(h: Seq<char>, p: Seq<char>) -> bool {
    exists|i: int| match_at(h, p, i)
}

/// `h` begins with the pattern `p`.
pub open spec fn has_prefix(h: Seq<char>, p: Seq<char>) -> bool {
    p.len() <= h.len() && h.subrange(0, p.len() as int) == p
}

/// Noise markers rejected wherever they occur in the text.
pub open spec fn sub_markers() -> Seq<Seq<char>> {
    seq![
        "import "@,
        "export "@,
        "const "@,
        "function "@,
        "interface "@,
        ".js:"@,
        ".ts:"@,
        ".tsx:"@,
        "chunk-"@,
        "requestanimationframe"@,
        "installhook"@,
    ]
}

/// Noise markers rejected when the text begins with them.
pub open spec fn prefix_markers() -> Seq<Seq<char>> {
    seq!["//"@, "/*"@, "```"@, "["@, "{"@, "<"@]
}

/// The text matches the fixed noise-signature table.
pub open spec fn noise_spec(s: Seq<char>) -> bool {
    ||| exists|k: int| 0 <= k < sub_markers().len() && has_sub(s, #[trigger] sub_markers()[k])
    ||| exists|k: int|
        0 <= k < prefix_markers().len() && has_prefix(s, #[trigger] prefix_markers()[k])
}

/// What `str::trim` returns on a text with view `s`.
pub uninterp spec fn trimmed_of(s: Seq<char>) -> Seq<char>;

/// What `str::to_lowercase` returns on a text with view `s`.
pub uninterp spec fn lower_of(s: Seq<char>) -> Seq<char>;

/// The canonical comparison form of a raw text: trimmed, then lower-cased.
pub open spec fn canon_of(raw: Seq<char>) -> Seq<char> {
    lower_of(trimmed_of(raw))
}

/// The normalized form of a raw text: its canonical form, or the empty
/// discard sentinel when that form matches the noise table.
pub open spec fn normalize_spec(raw: Seq<char>) -> Seq<char> {
    if noise_spec(canon_of(raw)) {
        Seq::<char>::empty()
    } else {
        canon_of(raw)
    }
}

/// A raw prompt survives filtering: its canonical form is not noise and is
/// longer than the three-character floor.
pub open spec fn kept_spec(raw: Seq<char>) -> bool {
    &&& !noise_spec(canon_of(raw))
    &&& canon_of(raw).len() > 3
}

/// Relies on str::trim: removes leading and trailing whitespace, leaving a
/// contiguous substring; the result depends on the characters alone.
#[verifier::external_body]
fn trim_str<'a>(s: &'a str) -> (r: &'a str)
    ensures
        r@ == trimmed_of(s@),
        r@.len() <= s@.len(),
{
    s.trim()
}

/// Relies on str::to_lowercase: the lowercase equivalent of the text; the
/// result depends on the characters alone.
#[verifier::external_body]
fn lower_str(s: &str) -> (r: String)
    ensures
        r@ == lower_of(s@),
        s@.len() == 0 ==> r@.len() == 0,
{
    s.to_lowercase()
}

/// Collects the characters of a string slice into a vector.
fn chars_of(s: &str) -> (r: Vec<char>)
    ensures
        r@ == s@,
{
    let n = s.unicode_len();
    let mut r: Vec<char> = Vec::new();
    let mut i: usize = 0;
    while i < n
        invariant
            n == s@.len(),
            i <= n,
            r@ == s@.subrange(0, i as int),
        decreases n - i,
    {
        r.push(s.get_char(i));
        assert(r@ =~= s@.subrange(0, i + 1 as int));
        i = i + 1;
    }
    assert(r@ =~= s@);
    r
}

/// Whether `p` occurs in `h` at position `i` exactly.
fn match_at_exec(h: &Vec<char>, p: &Vec<char>, i: usize) -> (r: bool)
    requires
        i + p@.len() <= h@.len(),
    ensures
        r == match_at(h@, p@, i as int),
{
    let n = h.len();
    let mut k: usize = 0;
    while k < p.len()
        invariant
            n == h@.len(),
            i + p@.len() <= h@.len(),
            k <= p@.len(),
            forall|k2: int| 0 <= k2 < k ==> h@[i + k2] == p@[k2],
        decreases p@.len() - k,
    {
        if h[i + k] != p[k] {
            assert(h@.subrange(i as int, i + p@.len() as int)[k as int] != p@[k as int]);
            return false;
        }
        k = k + 1;
    }
    assert(h@.subrange(i as int, i + p@.len() as int) =~= p@);
    true
}

/// Whether the pattern `p` occurs anywhere in `h`.
pub fn contains_marker(h: &Vec<char>, p: &Vec<char>) -> (r: bool)
    ensures
        r == has_sub(h@, p@),
{
    if p.len() > h.len() {
        return false;
    }
    if p.len() == 0 {
        assert(match_at(h@, p@, 0)) by {
            assert(h@.subrange(0, 0) =~= p@);
        }
        return true;
    }
    let last = h.len() - p.len();
    let mut i: usize = 0;
    while i <= last
        invariant
            1 <= p@.len() <= h@.len(),
            h@.len() <= usize::MAX,
            last == h@.len() - p@.len(),
            i <= last + 1,
            forall|i2: int| 0 <= i2 < i ==> !match_at(h@, p@, i2),
        decreases last + 1 - i,
    {
        if match_at_exec(h, p, i) {
            return true;
        }
        i = i + 1;
    }
    false
}

/// Whether `h` begins with the pattern `p`.
pub fn starts_with_marker(h: &Vec<char>, p: &Vec<char>) -> (r: bool)
    ensures
        r == has_prefix(h@, p@),
{
    if p.len() > h.len() {
        return false;
    }
    match_at_exec(h, p, 0)
}

/// The substring noise markers, as runtime data matching `sub_markers`.
fn sub_marker_vec() -> (r: Vec<Vec<char>>)
    ensures
        r@.len() == sub_markers().len(),
        forall|k: int| 0 <= k < r@.len() ==> #[trigger] r@[k]@ == sub_markers()[k],
{
    let mut r: Vec<Vec<char>> = Vec::new();
    r.push(chars_of("import "));
    r.push(chars_of("export "));
    r.push(chars_of("const "));
    r.push(chars_of("function "));
    r.push(chars_of("interface "));
    r.push(chars_of(".js:"));
    r.push(chars_of(".ts:"));
    r.push(chars_of(".tsx:"));
    r.push(chars_of("chunk-"));
    r.push(chars_of("requestanimationframe"));
    r.push(chars_of("installhook"));
    r
}

/// The prefix noise markers, as runtime data matching `prefix_markers`.
fn prefix_marker_vec() -> (r: Vec<Vec<char>>)
    ensures
        r@.len() == prefix_markers().len(),
        forall|k: int| 0 <= k < r@.len() ==> #[trigger] r@[k]@ == prefix_markers()[k],
{
    let mut r: Vec<Vec<char>> = Vec::new();
    r.push(chars_of("//"));
    r.push(chars_of("/*"));
    r.push(chars_of("```"));
    r.push(chars_of("["));
    r.push(chars_of("{"));
    r.push(chars_of("<"));
    r
}

/// Whether the text matches the fixed noise-signature table.
pub fn is_noise(s: &str) -> (r: bool)
    ensures
        r == noise_spec(s@),
{
    let h = chars_of(s);
    let subs = sub_marker_vec();
    let mut k: usize = 0;
    while k < subs.len()
        invariant
            h@ == s@,
            subs@.len() == sub_markers().len(),
            forall|k2: int| 0 <= k2 < subs@.len() ==> #[trigger] subs@[k2]@ == sub_markers()[k2],
            k <= subs@.len(),
            forall|k2: int| 0 <= k2 < k ==> !has_sub(s@, #[trigger] sub_markers()[k2]),
        decreases subs@.len() - k,
    {
        if contains_marker(&h, &subs[k]) {
            return true;
        }
        k = k + 1;
    }
    let prefs = prefix_marker_vec();
    let mut k: usize = 0;
    while k < prefs.len()
        invariant
            h@ == s@,
            prefs@.len() == prefix_markers().len(),
            forall|k2: int|
                0 <= k2 < prefs@.len() ==> #[trigger] prefs@[k2]@ == prefix_markers()[k2],
            k <= prefs@.len(),
            forall|k2: int| 0 <= k2 < sub_markers().len() ==> !has_sub(
                s@,
                #[trigger] sub_markers()[k2],
            ),
            forall|k2: int| 0 <= k2 < k ==> !has_prefix(s@, #[trigger] prefix_markers()[k2]),
        decreases prefs@.len() - k,
    {
        if starts_with_marker(&h, &prefs[k]) {
            return true;
        }
        k = k + 1;
    }
    false
}

/// Maps a raw text to its canonical comparison form — trimmed and
/// lower-cased — or to the empty discard sentinel when that form matches the
/// noise-signature table.
pub fn normalize_text(raw: &str) -> (r: String)
    ensures
        r@ == normalize_spec(raw@),
{
    let t = lower_str(trim_str(raw));
    if is_noise(t.as_str()) {
        String::new()
    } else {
        t
    }
}

} // verus!
