//! Character-level text helpers: fuzzy matching and ordering of strings.
use pinyin::ToPinyin;
use vstd::prelude::*;

verus! {

/// `t` can be obtained from `o` by deleting characters (a fuzzy match of `t` in `o`).
pub open spec fn is_subsequence(t: Seq<char>, o: Seq<char>) -> bool
    decreases o.len(),
{
    if t.len() == 0 {
        true
    } else if o.len() == 0 {
        false
    } else if o[0] == t[0] {
        is_subsequence(t.drop_first(), o.drop_first())
    } else {
        is_subsequence(t, o.drop_first())
    }
}

/// Lexicographic order of character sequences by code point, a proper prefix first.
pub open spec fn lex_lt(a: Seq<char>, b: Seq<char>) -> bool
    decreases a.len(),
{
    if b.len() == 0 {
        false
    } else if a.len() == 0 {
        true
    } else if a[0] != b[0] {
        a[0] < b[0]
    } else {
        lex_lt(a.drop_first(), b.drop_first())
    }
}

/// Bytes that UTF-8 takes for one character.
pub open spec fn char_utf8_len(c: char) -> nat {
    if (c as u32) < 0x80 {
        1
    } else if (c as u32) < 0x800 {
        2
    } else if (c as u32) < 0x10000 {
        3
    } else {
        4
    }
}

/// Bytes that UTF-8 takes for a text: the length `str::len` gives.
pub open spec fn utf8_len(s: Seq<char>) -> nat
    decreases s.len(),
{
    if s.len() == 0 {
        0
    } else {
        utf8_len(s.drop_last()) + char_utf8_len(s.last())
    }
}

/// The UTF-8 length of a text.
pub fn utf8_len_of(chars: &Vec<char>) -> (r: u128)
    ensures
        r == utf8_len(chars@),
{
    let mut n: u128 = 0;
    let mut i: usize = 0;
    while i < chars.len()
        invariant
            i <= chars@.len(),
            n == utf8_len(chars@.take(i as int)),
            n <= 4 * i,
        decreases chars@.len() - i,
    {
        proof {
            let t = chars@.take(i + 1);
            assert(t.drop_last() =~= chars@.take(i as int));
            assert(t.last() == chars@[i as int]);
        }
        let c = chars[i] as u32;
        if c < 0x80 {
            n = n + 1;
        } else if c < 0x800 {
            n = n + 2;
        } else if c < 0x10000 {
            n = n + 3;
        } else {
            n = n + 4;
        }
        i = i + 1;
    }
    assert(chars@.take(i as int) =~= chars@);
    n
}

/// Lower-case form of a text, as `str::to_lowercase` computes it.
pub uninterp spec fn lower_of(s: Seq<char>) -> Seq<char>;

/// Latin transliteration of the Chinese characters of a text, as the `pinyin` crate spells them.
pub uninterp spec fn pinyin_of(s: Seq<char>) -> Seq<char>;

/// The characters of a string, one per element.
pub fn chars_of(s: &str) -> (r: Vec<char>)
    ensures
        r@ == s@,
{
    let n = s.unicode_len();
    let mut out: Vec<char> = Vec::new();
    let mut i: usize = 0;
    while i < n
        invariant
            n == s@.len(),
            i <= n,
            out@ == s@.subrange(0, i as int),
        decreases n - i,
    {
        out.push(s.get_char(i));
        i = i + 1;
        assert(out@ =~= s@.subrange(0, i as int));
    }
    assert(out@ =~= s@);
    out
}

proof fn lemma_subsequence_step(t: Seq<char>, o: Seq<char>, ti: int, oi: int)
    requires
        0 <= ti < t.len(),
        0 <= oi < o.len(),
    ensures
        o[oi] == t[ti] ==> (is_subsequence(t.subrange(ti, t.len() as int), o.subrange(oi, o.len() as int))
            == is_subsequence(t.subrange(ti + 1, t.len() as int), o.subrange(oi + 1, o.len() as int))),
        o[oi] != t[ti] ==> (is_subsequence(t.subrange(ti, t.len() as int), o.subrange(oi, o.len() as int))
            == is_subsequence(t.subrange(ti, t.len() as int), o.subrange(oi + 1, o.len() as int))),
{
    let ts = t.subrange(ti, t.len() as int);
    let os = o.subrange(oi, o.len() as int);
    assert(ts.drop_first() =~= t.subrange(ti + 1, t.len() as int));
    assert(os.drop_first() =~= o.subrange(oi + 1, o.len() as int));
    assert(ts[0] == t[ti] && os[0] == o[oi]);
}

/// Whether `target` is a fuzzy match in `origin`: its characters occur in `origin` in order,
/// not necessarily next to each other.
pub fn includes_str(origin: &str, target: &str) -> (r: bool)
    ensures
        r == is_subsequence(target@, origin@),
{
    let o = chars_of(origin);
    let t = chars_of(target);
    let mut oi: usize = 0;
    let mut ti: usize = 0;
    assert(t@.subrange(0, t@.len() as int) =~= t@);
    assert(o@.subrange(0, o@.len() as int) =~= o@);
    while ti < t.len()
        invariant
            o@ == origin@,
            t@ == target@,
            oi <= o@.len(),
            ti <= t@.len(),
            is_subsequence(t@.subrange(ti as int, t@.len() as int), o@.subrange(oi as int, o@.len() as int))
                == is_subsequence(target@, origin@),
        decreases t@.len() - ti, o@.len() - oi,
    {
        if oi == o.len() {
            assert(t@.subrange(ti as int, t@.len() as int).len() > 0);
            assert(o@.subrange(oi as int, o@.len() as int).len() == 0);
            return false;
        }
        proof {
            lemma_subsequence_step(t@, o@, ti as int, oi as int);
        }
        if o[oi] == t[ti] {
            ti = ti + 1;
        }
        oi = oi + 1;
    }
    assert(t@.subrange(ti as int, t@.len() as int).len() == 0);
    true
}

/// Whether two strings hold the same characters.
pub fn same_text(a: &str, b: &str) -> (r: bool)
    ensures
        r == (a@ == b@),
{
    let x = chars_of(a);
    let y = chars_of(b);
    if x.len() != y.len() {
        return false;
    }
    let mut i: usize = 0;
    while i < x.len()
        invariant
            x@ == a@,
            y@ == b@,
            x@.len() == y@.len(),
            i <= x@.len(),
            forall|j: int| 0 <= j < i ==> x@[j] == y@[j],
        decreases x@.len() - i,
    {
        if x[i] != y[i] {
            return false;
        }
        i = i + 1;
    }
    assert(x@ =~= y@);
    true
}

/// Whether `a` comes before `b` in `lex_lt` order.
pub fn text_less(a: &Vec<char>, b: &Vec<char>) -> (r: bool)
    ensures
        r == lex_lt(a@, b@),
{
    let mut i: usize = 0;
    assert(a@.subrange(0, a@.len() as int) =~= a@);
    assert(b@.subrange(0, b@.len() as int) =~= b@);
    while i < a.len() && i < b.len() && a[i] == b[i]
        invariant
            i <= a@.len(),
            i <= b@.len(),
            lex_lt(a@.subrange(i as int, a@.len() as int), b@.subrange(i as int, b@.len() as int))
                == lex_lt(a@, b@),
        decreases a@.len() - i,
    {
        proof {
            let (x, y) = (a@.subrange(i as int, a@.len() as int), b@.subrange(i as int, b@.len() as int));
            assert(x.drop_first() =~= a@.subrange(i + 1, a@.len() as int));
            assert(y.drop_first() =~= b@.subrange(i + 1, b@.len() as int));
        }
        i = i + 1;
    }
    let ghost x = a@.subrange(i as int, a@.len() as int);
    let ghost y = b@.subrange(i as int, b@.len() as int);
    if i == b.len() {
        assert(y.len() == 0);
        false
    } else if i == a.len() {
        assert(x.len() == 0);
        true
    } else {
        assert(x[0] == a@[i as int] && y[0] == b@[i as int]);
        a[i] < b[i]
    }
}

/// Relies on `String::from_iter` over characters: the string holds them in order.
#[verifier::external_body]
pub(crate) fn string_of(chars: &Vec<char>) -> (r: String)
    ensures
        r@ == chars@,
{
    chars.iter().collect::<String>()
}

/// Relies on `str::to_lowercase`: the lower-case form depends on the characters alone.
#[verifier::external_body]
fn lowercase(s: &str) -> (r: String)
    ensures
        r@ == lower_of(s@),
{
    s.to_lowercase()
}

/// Spells Chinese characters in Latin letters without tone marks, through the `pinyin`
/// crate's `ToPinyin` and `Pinyin::plain`; characters without a reading are left out.
#[verifier::external_body]
pub fn zh_to_pinyin(zh: &str) -> (r: String)
    ensures
        r@ == pinyin_of(zh@),
{
    let mut s = String::new();
    for p in zh.to_pinyin().flatten() {
        s.push_str(p.plain());
    }
    s
}

/// Case-insensitive fuzzy match of `target` in `origin`, also tried against the Latin
/// spelling of `origin`'s Chinese characters.
pub fn fuzzy_query(origin: &str, target: &str) -> (r: bool)
    ensures
        r == (is_subsequence(lower_of(target@), lower_of(origin@)) || is_subsequence(
            lower_of(target@),
            pinyin_of(lower_of(origin@)),
        )),
{
    let origin = lowercase(origin);
    let target = lowercase(target);
    if includes_str(origin.as_str(), target.as_str()) {
        true
    } else {
        let spelled = zh_to_pinyin(origin.as_str());
        includes_str(spelled.as_str(), target.as_str())
    }
}

} // verus!
