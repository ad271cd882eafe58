//! Graph entry markers and the keys that route to them.
use crate::text::{chars_of, lex_lt, string_of, text_less, utf8_len, utf8_len_of};
use vstd::prelude::*;

verus! {

broadcast use vstd::seq_lib::group_to_multiset_ensures;

/// How a workflow is started: by typing a keyword, or by pressing a key combination.
pub enum Trigger {
    Keyword { keyword: String, title: String },
    Shortcut { keys: Vec<String>, title: String },
}

/// Order of key names in a shortcut's routing key: names longer in UTF-8 bytes first (so that
/// modifier names lead), names of equal length in `lex_lt` order.
pub open spec fn key_before(a: Seq<char>, b: Seq<char>) -> bool {
    utf8_len(a) > utf8_len(b) || (utf8_len(a) == utf8_len(b) && lex_lt(a, b))
}

/// No key name stands after one that `key_before` puts first.
pub open spec fn keys_sorted(s: Seq<Seq<char>>) -> bool {
    forall|i: int, j: int| 0 <= i < j < s.len() ==> !key_before(#[trigger] s[j], #[trigger] s[i])
}

/// Key names joined with `+`.
pub open spec fn join_plus(s: Seq<Seq<char>>) -> Seq<char>
    decreases s.len(),
{
    if s.len() == 0 {
        Seq::empty()
    } else if s.len() == 1 {
        s[0]
    } else {
        join_plus(s.drop_last()) + seq!['+'] + s.last()
    }
}

/// The characters of each string.
pub open spec fn views(keys: Seq<String>) -> Seq<Seq<char>> {
    keys.map_values(|k: String| k@)
}

/// `id` is the routing key of a shortcut with these key names: the names put in
/// `key_before` order and joined with `+`.
pub open spec fn is_shortcut_id(keys: Seq<Seq<char>>, id: Seq<char>) -> bool {
    exists|s: Seq<Seq<char>>|
        #![trigger join_plus(s)]
        s.to_multiset() == keys.to_multiset() && keys_sorted(s) && id == join_plus(s)
}

/// The routing key of a trigger.
pub open spec fn trigger_key(t: Trigger, id: Seq<char>) -> bool {
    match t {
        Trigger::Keyword { keyword, .. } => id == keyword@,
        Trigger::Shortcut { keys, .. } => is_shortcut_id(views(keys@), id),
    }
}

proof fn lemma_lex_irreflexive(a: Seq<char>)
    ensures
        !lex_lt(a, a),
    decreases a.len(),
{
    if a.len() > 0 {
        lemma_lex_irreflexive(a.drop_first());
    }
}

proof fn lemma_lex_transitive(a: Seq<char>, b: Seq<char>, c: Seq<char>)
    requires
        lex_lt(a, b),
        lex_lt(b, c),
    ensures
        lex_lt(a, c),
    decreases a.len(),
{
    if a.len() > 0 && a[0] == b[0] && b[0] == c[0] {
        lemma_lex_transitive(a.drop_first(), b.drop_first(), c.drop_first());
    }
}

proof fn lemma_lex_total(a: Seq<char>, b: Seq<char>)
    requires
        a != b,
    ensures
        lex_lt(a, b) || lex_lt(b, a),
    decreases a.len(),
{
    if a.len() > 0 && b.len() > 0 && a[0] == b[0] {
        if a.drop_first() == b.drop_first() {
            assert(a =~= seq![a[0]] + a.drop_first());
            assert(b =~= seq![b[0]] + b.drop_first());
        }
        lemma_lex_total(a.drop_first(), b.drop_first());
    } else if a.len() > 0 && b.len() > 0 {
    } else if a.len() == 0 && b.len() == 0 {
        assert(a =~= b);
    }
}

proof fn lemma_key_order()
    ensures
        forall|a: Seq<char>| !#[trigger] key_before(a, a),
        forall|a: Seq<char>, b: Seq<char>, c: Seq<char>|
            #[trigger] key_before(a, b) && #[trigger] key_before(b, c) ==> key_before(a, c),
        forall|a: Seq<char>, b: Seq<char>|
            a != b ==> #[trigger] key_before(a, b) || #[trigger] key_before(b, a),
{
    assert forall|a: Seq<char>| !#[trigger] key_before(a, a) by {
        lemma_lex_irreflexive(a);
    }
    assert forall|a: Seq<char>, b: Seq<char>, c: Seq<char>|
        #[trigger] key_before(a, b) && #[trigger] key_before(b, c) implies key_before(a, c) by {
        if utf8_len(a) == utf8_len(b) && utf8_len(b) == utf8_len(c) {
            lemma_lex_transitive(a, b, c);
        }
    }
    assert forall|a: Seq<char>, b: Seq<char>|
        a != b implies #[trigger] key_before(a, b) || #[trigger] key_before(b, a) by {
        if utf8_len(a) == utf8_len(b) {
            lemma_lex_total(a, b);
        }
    }
}

/// Two `key_before`-sorted arrangements of the same key names are the same sequence.
pub proof fn lemma_sorted_unique(s1: Seq<Seq<char>>, s2: Seq<Seq<char>>)
    requires
        keys_sorted(s1),
        keys_sorted(s2),
        s1.to_multiset() == s2.to_multiset(),
    ensures
        s1 == s2,
    decreases s1.len(),
{
    lemma_key_order();
    assert(s1.len() == s1.to_multiset().len());
    assert(s2.len() == s2.to_multiset().len());
    if s1.len() > 0 {
        let (a, b) = (s1[0], s2[0]);
        assert(s2.contains(b));
        assert(s2.to_multiset().count(b) > 0);
        assert(s1.to_multiset().count(b) > 0);
        assert(s1.contains(b));
        assert(s1.contains(a));
        assert(s1.to_multiset().count(a) > 0);
        assert(s2.to_multiset().count(a) > 0);
        assert(s2.contains(a));
        let j1 = choose|j: int| 0 <= j < s1.len() && s1[j] == b;
        let j2 = choose|j: int| 0 <= j < s2.len() && s2[j] == a;
        if j1 > 0 {
            assert(!key_before(s1[j1], s1[0]));
        }
        if j2 > 0 {
            assert(!key_before(s2[j2], s2[0]));
        }
        assert(a == b);
        assert(s1.remove(0) =~= s1.drop_first());
        assert(s2.remove(0) =~= s2.drop_first());
        assert(s1.drop_first().to_multiset() == s2.drop_first().to_multiset());
        assert(keys_sorted(s1.drop_first())) by {
            assert forall|i: int, j: int| 0 <= i < j < s1.drop_first().len() implies !key_before(
                #[trigger] s1.drop_first()[j],
                #[trigger] s1.drop_first()[i],
            ) by {
                assert(s1.drop_first()[j] == s1[j + 1] && s1.drop_first()[i] == s1[i + 1]);
            }
        }
        assert(keys_sorted(s2.drop_first())) by {
            assert forall|i: int, j: int| 0 <= i < j < s2.drop_first().len() implies !key_before(
                #[trigger] s2.drop_first()[j],
                #[trigger] s2.drop_first()[i],
            ) by {
                assert(s2.drop_first()[j] == s2[j + 1] && s2.drop_first()[i] == s2[i + 1]);
            }
        }
        lemma_sorted_unique(s1.drop_first(), s2.drop_first());
        assert(s1 =~= s2) by {
            assert forall|i: int| 0 <= i < s1.len() implies s1[i] == s2[i] by {
                if i > 0 {
                    assert(s1[i] == s1.drop_first()[i - 1]);
                    assert(s2[i] == s2.drop_first()[i - 1]);
                }
            }
        }
    } else {
        assert(s1 =~= s2);
    }
}

/// The routing key of a shortcut does not depend on the order its key names are listed in:
/// two lists holding the same names give the same key.
pub proof fn lemma_shortcut_key_order_free(
    k1: Seq<Seq<char>>,
    k2: Seq<Seq<char>>,
    id1: Seq<char>,
    id2: Seq<char>,
)
    requires
        k1.to_multiset() == k2.to_multiset(),
        is_shortcut_id(k1, id1),
        is_shortcut_id(k2, id2),
    ensures
        id1 == id2,
{
    let s1 = choose|s: Seq<Seq<char>>|
        #![trigger join_plus(s)]
        s.to_multiset() == k1.to_multiset() && keys_sorted(s) && id1 == join_plus(s);
    let s2 = choose|s: Seq<Seq<char>>|
        #![trigger join_plus(s)]
        s.to_multiset() == k2.to_multiset() && keys_sorted(s) && id2 == join_plus(s);
    lemma_sorted_unique(s1, s2);
}

fn key_less(a: &Vec<char>, b: &Vec<char>) -> (r: bool)
    ensures
        r == key_before(a@, b@),
{
    let (la, lb) = (utf8_len_of(a), utf8_len_of(b));
    la > lb || (la == lb && text_less(a, b))
}

/// Spec view of a list of character vectors.
pub open spec fn char_views(v: Seq<Vec<char>>) -> Seq<Seq<char>> {
    v.map_values(|c: Vec<char>| c@)
}

fn sort_keys(keys: &Vec<String>) -> (r: Vec<Vec<char>>)
    ensures
        keys_sorted(char_views(r@)),
        char_views(r@).to_multiset() == views(keys@).to_multiset(),
{
    proof {
        lemma_key_order();
    }
    let mut out: Vec<Vec<char>> = Vec::new();
    let mut i: usize = 0;
    while i < keys.len()
        invariant
            i <= keys@.len(),
            keys_sorted(char_views(out@)),
            char_views(out@).to_multiset() == views(keys@).take(i as int).to_multiset(),
            forall|a: Seq<char>| !#[trigger] key_before(a, a),
            forall|a: Seq<char>, b: Seq<char>, c: Seq<char>|
                #[trigger] key_before(a, b) && #[trigger] key_before(b, c) ==> key_before(a, c),
        decreases keys@.len() - i,
    {
        let k = chars_of(keys[i].as_str());
        let ghost sv = char_views(out@);
        let mut p: usize = 0;
        while p < out.len() && !key_less(&k, &out[p])
            invariant
                p <= out@.len(),
                sv == char_views(out@),
                forall|j: int| 0 <= j < p ==> !key_before(k@, #[trigger] sv[j]),
            decreases out@.len() - p,
        {
            p = p + 1;
        }
        out.insert(p, k);
        proof {
            let nv = char_views(out@);
            assert(nv =~= sv.insert(p as int, k@));
            assert(keys_sorted(nv)) by {
                assert forall|x: int, y: int| 0 <= x < y < nv.len() implies !key_before(
                    #[trigger] nv[y],
                    #[trigger] nv[x],
                ) by {
                    if y < p {
                        assert(nv[y] == sv[y] && nv[x] == sv[x]);
                    } else if y == p {
                        assert(nv[x] == sv[x]);
                    } else if x > p {
                        assert(nv[y] == sv[y - 1] && nv[x] == sv[x - 1]);
                    } else if x == p {
                        assert(nv[y] == sv[y - 1]);
                        assert(key_before(k@, sv[p as int]));
                        if y - 1 > p {
                            assert(!key_before(sv[y - 1], sv[p as int]));
                        }
                    } else {
                        assert(nv[y] == sv[y - 1] && nv[x] == sv[x]);
                    }
                }
            }
            assert(views(keys@).take(i + 1) =~= views(keys@).take(i as int).push(k@));
        }
        i = i + 1;
    }
    assert(views(keys@).take(i as int) =~= views(keys@));
    out
}

fn join_keys(parts: &Vec<Vec<char>>) -> (r: Vec<char>)
    ensures
        r@ == join_plus(char_views(parts@)),
{
    let ghost sv = char_views(parts@);
    let mut out: Vec<char> = Vec::new();
    let mut i: usize = 0;
    while i < parts.len()
        invariant
            i <= parts@.len(),
            sv == char_views(parts@),
            out@ == join_plus(sv.take(i as int)),
        decreases parts@.len() - i,
    {
        let ghost before = out@;
        if i > 0 {
            out.push('+');
        }
        let part = &parts[i];
        let mut j: usize = 0;
        let ghost mid = out@;
        while j < part.len()
            invariant
                j <= part@.len(),
                out@ == mid + part@.take(j as int),
            decreases part@.len() - j,
        {
            out.push(part[j]);
            j = j + 1;
            assert(out@ =~= mid + part@.take(j as int));
        }
        proof {
            assert(part@.take(j as int) =~= part@);
            let t = sv.take(i + 1);
            assert(t.drop_last() =~= sv.take(i as int));
            assert(t.last() == part@);
            if i == 0 {
                assert(out@ =~= join_plus(t));
            } else {
                assert(out@ =~= join_plus(t));
            }
        }
        i = i + 1;
    }
    assert(sv.take(i as int) =~= sv);
    out
}

impl Trigger {
    /// The key that routes to this trigger: the keyword itself, or for a shortcut its key
    /// names, longer names (in UTF-8 bytes) first and names of equal length in order, joined
    /// with `+`.
    pub fn id(&self) -> (r: String)
        ensures
            trigger_key(*self, r@),
    {
        match self {
            Trigger::Keyword { keyword, .. } => keyword.clone(),
            Trigger::Shortcut { keys, .. } => {
                let sorted = sort_keys(keys);
                let joined = join_keys(&sorted);
                let r = string_of(&joined);
                assert(is_shortcut_id(views(keys@), r@)) by {
                    let s = char_views(sorted@);
                    assert(join_plus(s) == r@);
                }
                r
            },
        }
    }

    /// The title shown for this trigger.
    pub fn title(&self) -> (r: &str)
        ensures
            r@ == match *self {
                Trigger::Keyword { title, .. } => title@,
                Trigger::Shortcut { title, .. } => title@,
            },
    {
        match self {
            Trigger::Keyword { title, .. } => title.as_str(),
            Trigger::Shortcut { title, .. } => title.as_str(),
        }
    }
}

} // verus!
