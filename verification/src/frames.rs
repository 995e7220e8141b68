//! Choosing and ordering the frame files of a camera folder: the files named
//! `frame_….png`, in the byte order of their names.
use vstd::prelude::*;
use vstd::relations::{sorted_by, total_ordering};

use crate::names::{chars_of, has_prefix, has_suffix};

verus! {

/// A frame file name: `frame_` at the start and `.png` at the end.
pub open spec fn is_frame_name(s: Seq<char>) -> bool {
    has_prefix(s, seq!['f', 'r', 'a', 'm', 'e', '_']) && has_suffix(s, seq!['.', 'p', 'n', 'g'])
}

/// `is_frame_name` as a predicate value.
pub open spec fn frame_pred() -> spec_fn(Seq<char>) -> bool {
    |s: Seq<char>| is_frame_name(s)
}

/// Lexicographic order of character sequences by code point, shortest first
/// on a common prefix. On the UTF-8 names of files this is the byte order
/// in which file names compare.
pub open spec fn lex_le(a: Seq<char>, b: Seq<char>) -> bool
    decreases a.len(),
{
    if a.len() == 0 {
        true
    } else if b.len() == 0 {
        false
    } else if a[0] != b[0] {
        (a[0] as int) < (b[0] as int)
    } else {
        lex_le(a.drop_first(), b.drop_first())
    }
}

/// `lex_le` as a relation value.
pub open spec fn lex_order() -> spec_fn(Seq<char>, Seq<char>) -> bool {
    |a: Seq<char>, b: Seq<char>| lex_le(a, b)
}

/// The character sequences of a sequence of strings.
pub open spec fn name_views(v: Seq<String>) -> Seq<Seq<char>> {
    v.map_values(|s: String| s@)
}

/// Any two sequences compare one way or the other.
pub proof fn lemma_lex_total(a: Seq<char>, b: Seq<char>)
    ensures
        lex_le(a, b) || lex_le(b, a),
    decreases a.len(),
{
    if a.len() > 0 && b.len() > 0 {
        if a[0] == b[0] {
            lemma_lex_total(a.drop_first(), b.drop_first());
        } else {
            assert((a[0] as int) != (b[0] as int));
        }
    }
}

/// The order is transitive.
pub proof fn lemma_lex_transitive(a: Seq<char>, b: Seq<char>, c: Seq<char>)
    requires
        lex_le(a, b),
        lex_le(b, c),
    ensures
        lex_le(a, c),
    decreases a.len(),
{
    if a.len() > 0 && b.len() > 0 && c.len() > 0 && a[0] == b[0] && b[0] == c[0] {
        lemma_lex_transitive(a.drop_first(), b.drop_first(), c.drop_first());
    }
}

/// The order is antisymmetric: two sequences that compare both ways are equal.
pub proof fn lemma_lex_antisymmetric(a: Seq<char>, b: Seq<char>)
    requires
        lex_le(a, b),
        lex_le(b, a),
    ensures
        a == b,
    decreases a.len(),
{
    if a.len() > 0 && b.len() > 0 {
        lemma_lex_antisymmetric(a.drop_first(), b.drop_first());
        assert(a =~= seq![a[0]] + a.drop_first());
        assert(b =~= seq![b[0]] + b.drop_first());
    } else {
        assert(a =~= b);
    }
}

/// Every sequence comes with itself.
pub proof fn lemma_lex_reflexive(a: Seq<char>)
    ensures
        lex_le(a, a),
    decreases a.len(),
{
    if a.len() > 0 {
        lemma_lex_reflexive(a.drop_first());
    }
}

/// `lex_le` is a total order.
pub proof fn lemma_lex_total_order()
    ensures
        total_ordering(lex_order()),
{
    assert forall|a: Seq<char>| #[trigger] lex_order()(a, a) by {
        lemma_lex_reflexive(a);
    }
    assert forall|a: Seq<char>, b: Seq<char>|
        #[trigger] lex_order()(a, b) && #[trigger] lex_order()(b, a) implies a == b by {
        lemma_lex_antisymmetric(a, b);
    }
    assert forall|a: Seq<char>, b: Seq<char>, c: Seq<char>|
        #[trigger] lex_order()(a, b) && #[trigger] lex_order()(b, c) implies lex_order()(a, c) by {
        lemma_lex_transitive(a, b, c);
    }
    assert forall|a: Seq<char>, b: Seq<char>|
        #[trigger] lex_order()(a, b) || #[trigger] lex_order()(b, a) by {
        lemma_lex_total(a, b);
    }
}

/// The frames of a folder have one order only: two sorted lists of the same
/// names are equal.
pub proof fn lemma_frame_order_unique(x: Seq<Seq<char>>, y: Seq<Seq<char>>)
    requires
        sorted_by(x, lex_order()),
        sorted_by(y, lex_order()),
        x.to_multiset() == y.to_multiset(),
    ensures
        x == y,
{
    lemma_lex_total_order();
    vstd::seq_lib::lemma_sorted_unique(x, y, lex_order());
}

/// Keeping the elements that all pass a test keeps everything.
proof fn lemma_filter_all_pass(s: Seq<Seq<char>>, pred: spec_fn(Seq<char>) -> bool)
    requires
        forall|i: int| 0 <= i < s.len() ==> pred(#[trigger] s[i]),
    ensures
        s.filter(pred) == s,
    decreases s.len(),
{
    if s.len() > 0 {
        let d = s.drop_last();
        lemma_filter_all_pass(d, pred);
        assert(d.push(s.last()) =~= s);
        d.lemma_filter_push(s.last(), pred);
    } else {
        reveal(Seq::filter);
    }
}

/// Selecting the frames of a selection changes nothing: if `y` is what
/// `select_frames` gives for `x`, and `z` what it gives for `y`, then
/// `z == y`.
pub proof fn lemma_select_frames_idempotent(x: Seq<Seq<char>>, y: Seq<Seq<char>>, z: Seq<Seq<char>>)
    requires
        sorted_by(y, lex_order()),
        y.to_multiset() == x.filter(frame_pred()).to_multiset(),
        sorted_by(z, lex_order()),
        z.to_multiset() == y.filter(frame_pred()).to_multiset(),
    ensures
        z == y,
{
    broadcast use vstd::seq_lib::group_to_multiset_ensures;

    assert forall|i: int| 0 <= i < y.len() implies frame_pred()(#[trigger] y[i]) by {
        assert(y.contains(y[i]));
        assert(y.to_multiset().count(y[i]) > 0);
        assert(x.filter(frame_pred()).contains(y[i]));
        x.lemma_filter_contains_rev(frame_pred(), y[i]);
    }
    lemma_filter_all_pass(y, frame_pred());
    lemma_frame_order_unique(z, y);
}

/// Whether the characters `t` form a frame file name.
fn is_frame_chars(t: &Vec<char>) -> (r: bool)
    ensures
        r == is_frame_name(t@),
{
    let n = t.len();
    let prefix = n >= 6 && t[0] == 'f' && t[1] == 'r' && t[2] == 'a' && t[3] == 'm' && t[4] == 'e'
        && t[5] == '_';
    let suffix = n >= 4 && t[n - 4] == '.' && t[n - 3] == 'p' && t[n - 2] == 'n' && t[n - 1]
        == 'g';
    proof {
        let p = seq!['f', 'r', 'a', 'm', 'e', '_'];
        let q = seq!['.', 'p', 'n', 'g'];
        if n >= 6 {
            let h = t@.subrange(0, 6);
            assert(h[0] == t@[0] && h[1] == t@[1] && h[2] == t@[2] && h[3] == t@[3] && h[4]
                == t@[4] && h[5] == t@[5]);
            if prefix {
                assert(h =~= p);
            }
        }
        if n >= 4 {
            let h = t@.subrange(n - 4, n as int);
            assert(h[0] == t@[n - 4] && h[1] == t@[n - 3] && h[2] == t@[n - 2] && h[3] == t@[n
                - 1]);
            if suffix {
                assert(h =~= q);
            }
        }
    }
    prefix && suffix
}

/// Compares `a` and `b` by `lex_le`.
fn lex_le_chars(a: &Vec<char>, b: &Vec<char>) -> (r: bool)
    ensures
        r == lex_le(a@, b@),
{
    let mut i: usize = 0;
    assert(a@.skip(0) == a@ && b@.skip(0) == b@);
    while i < a.len() && i < b.len() && a[i] == b[i]
        invariant
            i <= a.len(),
            i <= b.len(),
            lex_le(a@, b@) == lex_le(a@.skip(i as int), b@.skip(i as int)),
        decreases a.len() - i,
    {
        assert(a@.skip(i as int).drop_first() =~= a@.skip(i + 1));
        assert(b@.skip(i as int).drop_first() =~= b@.skip(i + 1));
        i = i + 1;
    }
    if i == a.len() {
        true
    } else if i == b.len() {
        false
    } else {
        a[i] < b[i]
    }
}

/// Inserting `x` after the elements that come before or with it, and before
/// the first that comes after it, keeps a sorted sequence sorted.
proof fn lemma_insert_sorted(s: Seq<Seq<char>>, p: int, x: Seq<char>)
    requires
        sorted_by(s, lex_order()),
        0 <= p <= s.len(),
        forall|k: int| 0 <= k < p ==> lex_le(#[trigger] s[k], x),
        p < s.len() ==> !lex_le(s[p], x),
    ensures
        sorted_by(s.insert(p, x), lex_order()),
{
    let w = s.insert(p, x);
    assert forall|k: int| p <= k < s.len() implies lex_le(x, #[trigger] s[k]) by {
        lemma_lex_total(s[p], x);
        if k > p {
            assert(lex_order()(s[p], s[k]));
            lemma_lex_transitive(x, s[p], s[k]);
        }
    }
    assert forall|i: int, j: int| 0 <= i < j < w.len() implies #[trigger] lex_order()(
        w[i],
        w[j],
    ) by {
        if j < p {
            assert(lex_order()(s[i], s[j]));
        } else if j == p {
            assert(w[j] == x);
        } else if i < p {
            assert(w[j] == s[j - 1]);
            lemma_lex_transitive(s[i], x, s[j - 1]);
        } else if i == p {
            assert(w[j] == s[j - 1]);
        } else {
            assert(lex_order()(s[i - 1], s[j - 1]));
        }
    }
}

/// Sorts names by `lex_le`.
pub fn sort_names(v: &Vec<String>) -> (out: Vec<String>)
    ensures
        sorted_by(name_views(out@), lex_order()),
        name_views(out@).to_multiset() == name_views(v@).to_multiset(),
{
    broadcast use vstd::seq_lib::group_to_multiset_ensures;

    let mut out: Vec<String> = Vec::new();
    let mut keys: Vec<Vec<char>> = Vec::new();
    let mut i: usize = 0;
    while i < v.len()
        invariant
            i <= v.len(),
            keys.len() == out.len(),
            forall|k: int| 0 <= k < keys.len() ==> (#[trigger] keys@[k])@ == out@[k]@,
            sorted_by(name_views(out@), lex_order()),
            name_views(out@).to_multiset() == name_views(v@.take(i as int)).to_multiset(),
        decreases v.len() - i,
    {
        let s = v[i].clone();
        let key = chars_of(s.as_str());
        let mut p: usize = 0;
        while p < out.len() && lex_le_chars(&keys[p], &key)
            invariant
                p <= out.len(),
                keys.len() == out.len(),
                forall|k: int| 0 <= k < keys.len() ==> (#[trigger] keys@[k])@ == out@[k]@,
                forall|k: int| 0 <= k < p ==> lex_le(#[trigger] name_views(out@)[k], key@),
            decreases out.len() - p,
        {
            p = p + 1;
        }
        let ghost before = name_views(out@);
        proof {
            lemma_insert_sorted(before, p as int, key@);
            vstd::seq_lib::to_multiset_insert(before, p as int, key@);
            assert(v@.take(i + 1) =~= v@.take(i as int).push(v@[i as int]));
            assert(name_views(v@.take(i + 1)) =~= name_views(v@.take(i as int)).push(s@));
            vstd::seq_lib::to_multiset_build(name_views(v@.take(i as int)), s@);
        }
        let ghost keys_before = keys@;
        let ghost out_before = out@;
        out.insert(p, s);
        keys.insert(p, key);
        assert(name_views(out@) =~= before.insert(p as int, key@));
        assert(key@ == s@);
        assert(name_views(out@).to_multiset() == before.to_multiset().insert(key@));
        assert(name_views(v@.take(i + 1)).to_multiset() == name_views(v@.take(i as int)).to_multiset().insert(key@));
        assert forall|k: int| 0 <= k < keys.len() implies (#[trigger] keys@[k])@ == out@[k]@ by {
            if k < p {
                assert(keys@[k] == keys_before[k] && out@[k] == out_before[k]);
            } else if k > p {
                assert(keys@[k] == keys_before[k - 1] && out@[k] == out_before[k - 1]);
            }
        }
        i = i + 1;
    }
    assert(v@.take(v.len() as int) == v@);
    out
}

/// The frame file names among `names`, sorted by `lex_le`.
pub fn select_frames(names: &Vec<String>) -> (frames: Vec<String>)
    ensures
        sorted_by(name_views(frames@), lex_order()),
        name_views(frames@).to_multiset() == name_views(names@).filter(frame_pred()).to_multiset(),
        forall|k: int| 0 <= k < frames@.len() ==> is_frame_name(#[trigger] frames@[k]@),
{
    let mut kept: Vec<String> = Vec::new();
    let mut i: usize = 0;
    while i < names.len()
        invariant
            i <= names.len(),
            name_views(kept@) == name_views(names@.take(i as int)).filter(frame_pred()),
        decreases names.len() - i,
    {
        let chars = chars_of(names[i].as_str());
        proof {
            assert(names@.take(i + 1) =~= names@.take(i as int).push(names@[i as int]));
            assert(name_views(names@.take(i + 1)) =~= name_views(names@.take(i as int)).push(
                names@[i as int]@,
            ));
            name_views(names@.take(i as int)).lemma_filter_push(names@[i as int]@, frame_pred());
        }
        if is_frame_chars(&chars) {
            let ghost kept_before = kept@;
            kept.push(names[i].clone());
            assert(name_views(kept@) =~= name_views(kept_before).push(names@[i as int]@));
        }
        i = i + 1;
    }
    assert(names@.take(names.len() as int) == names@);
    let frames = sort_names(&kept);
    proof {
        broadcast use vstd::seq_lib::group_to_multiset_ensures;

        assert forall|k: int| 0 <= k < frames@.len() implies is_frame_name(
            #[trigger] frames@[k]@,
        ) by {
            let f = name_views(frames@);
            assert(f[k] == frames@[k]@);
            assert(f.contains(f[k]));
            assert(f.to_multiset().count(f[k]) > 0);
            let g = name_views(names@).filter(frame_pred());
            assert(g.contains(f[k]));
            name_views(names@).lemma_filter_contains_rev(frame_pred(), f[k]);
        }
    }
    frames
}

/// A name is a frame name exactly when its first six characters are
/// `frame_` and its last four are `.png`, whatever its length in between.
pub proof fn lemma_frame_name_exact(s: Seq<char>)
    ensures
        is_frame_name(s) <==> (s.len() >= 6 && s[0] == 'f' && s[1] == 'r' && s[2] == 'a' && s[3]
            == 'm' && s[4] == 'e' && s[5] == '_' && s.len() >= 4 && s[s.len() - 4] == '.' && s[s.len()
            - 3] == 'p' && s[s.len() - 2] == 'n' && s[s.len() - 1] == 'g'),
{
    let p = seq!['f', 'r', 'a', 'm', 'e', '_'];
    let q = seq!['.', 'p', 'n', 'g'];
    if s.len() >= 6 {
        let h = s.subrange(0, 6);
        assert(h[0] == s[0] && h[1] == s[1] && h[2] == s[2] && h[3] == s[3] && h[4] == s[4] && h[5]
            == s[5]);
        if s[0] == 'f' && s[1] == 'r' && s[2] == 'a' && s[3] == 'm' && s[4] == 'e' && s[5] == '_' {
            assert(h =~= p);
        }
    }
    if s.len() >= 4 {
        let h = s.subrange(s.len() - 4, s.len() as int);
        assert(h[0] == s[s.len() - 4] && h[1] == s[s.len() - 3] && h[2] == s[s.len() - 2] && h[3]
            == s[s.len() - 1]);
        if s[s.len() - 4] == '.' && s[s.len() - 3] == 'p' && s[s.len() - 2] == 'n' && s[s.len() - 1]
            == 'g' {
            assert(h =~= q);
        }
    }
}

/// Every frame name among the names given is selected, and only those: for
/// names `x` and a selection `y` of them as `select_frames` gives, a name
/// is in `y` exactly when it is in `x` and starts with `frame_` and ends
/// with `.png`.
pub proof fn lemma_selected_frames_exact(x: Seq<Seq<char>>, y: Seq<Seq<char>>)
    requires
        y.to_multiset() == x.filter(frame_pred()).to_multiset(),
    ensures
        forall|n: Seq<char>|
            #[trigger] y.contains(n) <==> x.contains(n) && n.len() >= 6 && n[0] == 'f' && n[1] == 'r'
                && n[2] == 'a' && n[3] == 'm' && n[4] == 'e' && n[5] == '_' && n[n.len() - 4] == '.'
                && n[n.len() - 3] == 'p' && n[n.len() - 2] == 'n' && n[n.len() - 1] == 'g',
{
    broadcast use vstd::seq_lib::group_to_multiset_ensures;

    assert forall|n: Seq<char>|
        #[trigger] y.contains(n) <==> x.contains(n) && n.len() >= 6 && n[0] == 'f' && n[1] == 'r'
            && n[2] == 'a' && n[3] == 'm' && n[4] == 'e' && n[5] == '_' && n[n.len() - 4] == '.'
            && n[n.len() - 3] == 'p' && n[n.len() - 2] == 'n' && n[n.len() - 1] == 'g' by {
        lemma_frame_name_exact(n);
        assert(y.contains(n) <==> y.to_multiset().count(n) > 0);
        assert(x.filter(frame_pred()).contains(n) <==> x.filter(frame_pred()).to_multiset().count(
            n,
        ) > 0);
        if x.filter(frame_pred()).contains(n) {
            x.lemma_filter_contains_rev(frame_pred(), n);
            let i = choose|i: int| 0 <= i < x.filter(frame_pred()).len() && x.filter(frame_pred())[i]
                == n;
            x.lemma_filter_pred(frame_pred(), i);
        }
        if x.contains(n) && is_frame_name(n) {
            let i = choose|i: int| 0 <= i < x.len() && x[i] == n;
            x.lemma_filter_contains(frame_pred(), i);
        }
    }
}

} // verus!
