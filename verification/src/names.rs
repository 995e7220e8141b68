//! Camera folder names and frame file names.
//!
//! A camera's folder is named like `Cam_X1.5_Y2_Z-3_FOV60_Rot10_20_30`:
//! the prefix `Cam_`, then tokens separated by `_`. A token that starts with
//! `X`, `Y` or `Z` gives that coordinate of the camera, `FOV` its field of
//! view, and `Rot` the rotation about x, with the two tokens after it giving
//! the rotations about y and z. A later token of a kind replaces an earlier
//! one. The texts are handed over unparsed: reading numbers is the caller's.
use vstd::prelude::*;

verus! {

/// Splits `s` at every `_`, as `str::split('_')` does: the result has one
/// more token than `s` has underscores, and tokens may be empty.
pub open spec fn split_tokens(s: Seq<char>) -> Seq<Seq<char>>
    decreases s.len(),
{
    if s.len() == 0 {
        seq![seq![]]
    } else {
        let earlier = split_tokens(s.drop_last());
        if s.last() == '_' {
            earlier.push(seq![])
        } else {
            earlier.update(earlier.len() - 1, earlier.last().push(s.last()))
        }
    }
}

/// The tokens joined again with `_` between them.
pub open spec fn join_tokens(ts: Seq<Seq<char>>) -> Seq<char>
    decreases ts.len(),
{
    if ts.len() == 0 {
        seq![]
    } else if ts.len() == 1 {
        ts[0]
    } else {
        join_tokens(ts.drop_last()) + seq!['_'] + ts.last()
    }
}

/// Splitting at `_` loses nothing: there is always at least one token, no
/// token holds a `_`, and joining the tokens with `_` gives back the text.
pub proof fn lemma_split_join(s: Seq<char>)
    ensures
        split_tokens(s).len() >= 1,
        forall|k: int| 0 <= k < split_tokens(s).len() ==> !(#[trigger] split_tokens(s)[k]).contains('_'),
        join_tokens(split_tokens(s)) == s,
    decreases s.len(),
{
    if s.len() > 0 {
        let d = s.drop_last();
        let c = s.last();
        lemma_split_join(d);
        let p = split_tokens(d);
        if c == '_' {
            let q = p.push(seq![]);
            assert(q.drop_last() =~= p);
            assert(join_tokens(q) =~= s);
            assert forall|k: int| 0 <= k < q.len() implies !(#[trigger] q[k]).contains('_') by {
                if k < p.len() {
                    assert(q[k] == p[k]);
                }
            }
        } else {
            let last = p.last().push(c);
            let q = p.update(p.len() - 1, last);
            assert forall|k: int| 0 <= k < q.len() implies !(#[trigger] q[k]).contains('_') by {
                if k < p.len() - 1 {
                    assert(q[k] == p[k]);
                } else {
                    assert(q[k] == last);
                    assert(!p.last().contains('_'));
                    if last.contains('_') {
                        let i = choose|i: int| 0 <= i < last.len() && last[i] == '_';
                        assert(i < p.last().len());
                        assert(p.last()[i] == '_');
                    }
                }
            }
            if p.len() == 1 {
                assert(join_tokens(q) =~= s);
            } else {
                assert(q.drop_last() =~= p.drop_last());
                assert(join_tokens(q) =~= join_tokens(p).push(c));
                assert(join_tokens(q) =~= s);
            }
        }
    }
}

/// `t` starts with `p`.
pub open spec fn has_prefix(t: Seq<char>, p: Seq<char>) -> bool {
    p.len() <= t.len() && t.subrange(0, p.len() as int) == p
}

/// `t` ends with `p`.
pub open spec fn has_suffix(t: Seq<char>, p: Seq<char>) -> bool {
    p.len() <= t.len() && t.subrange(t.len() - p.len(), t.len() as int) == p
}

/// The unparsed value texts of a camera folder name.
pub struct CameraFields {
    pub x: Option<String>,
    pub y: Option<String>,
    pub z: Option<String>,
    pub fov: Option<String>,
    pub rot_x: Option<String>,
    pub rot_y: Option<String>,
    pub rot_z: Option<String>,
}

/// The mathematical value of `CameraFields`.
pub struct FieldTexts {
    pub x: Option<Seq<char>>,
    pub y: Option<Seq<char>>,
    pub z: Option<Seq<char>>,
    pub fov: Option<Seq<char>>,
    pub rot_x: Option<Seq<char>>,
    pub rot_y: Option<Seq<char>>,
    pub rot_z: Option<Seq<char>>,
}

/// The characters of an optional text.
pub open spec fn text_of(o: Option<String>) -> Option<Seq<char>> {
    match o {
        Some(s) => Some(s@),
        None => None,
    }
}

impl View for CameraFields {
    type V = FieldTexts;

    open spec fn view(&self) -> FieldTexts {
        FieldTexts {
            x: text_of(self.x),
            y: text_of(self.y),
            z: text_of(self.z),
            fov: text_of(self.fov),
            rot_x: text_of(self.rot_x),
            rot_y: text_of(self.rot_y),
            rot_z: text_of(self.rot_z),
        }
    }
}

/// No value texts at all.
pub open spec fn no_texts() -> FieldTexts {
    FieldTexts { x: None, y: None, z: None, fov: None, rot_x: None, rot_y: None, rot_z: None }
}

/// The value texts after reading `tokens` from index `i` on, starting
/// from `f`.
pub open spec fn scan_tokens(tokens: Seq<Seq<char>>, i: nat, f: FieldTexts) -> FieldTexts
    decreases tokens.len() - i,
{
    if i >= tokens.len() {
        f
    } else {
        let t = tokens[i as int];
        if has_prefix(t, seq!['X']) {
            scan_tokens(tokens, i + 1, FieldTexts { x: Some(t.skip(1)), ..f })
        } else if has_prefix(t, seq!['Y']) {
            scan_tokens(tokens, i + 1, FieldTexts { y: Some(t.skip(1)), ..f })
        } else if has_prefix(t, seq!['Z']) {
            scan_tokens(tokens, i + 1, FieldTexts { z: Some(t.skip(1)), ..f })
        } else if has_prefix(t, seq!['F', 'O', 'V']) {
            scan_tokens(tokens, i + 1, FieldTexts { fov: Some(t.skip(3)), ..f })
        } else if has_prefix(t, seq!['R', 'o', 't']) {
            if i + 2 < tokens.len() {
                scan_tokens(
                    tokens,
                    i + 3,
                    FieldTexts {
                        rot_x: Some(t.skip(3)),
                        rot_y: Some(tokens[i + 1int]),
                        rot_z: Some(tokens[i + 2int]),
                        ..f
                    },
                )
            } else {
                scan_tokens(tokens, i + 1, FieldTexts { rot_x: Some(t.skip(3)), ..f })
            }
        } else {
            scan_tokens(tokens, i + 1, f)
        }
    }
}

/// The value texts of a camera folder name, or `None` when the name does
/// not start with `Cam_`. The token before the first `_` is not read.
pub open spec fn camera_fields_of(name: Seq<char>) -> Option<FieldTexts> {
    if has_prefix(name, seq!['C', 'a', 'm', '_']) {
        Some(scan_tokens(split_tokens(name), 1, no_texts()))
    } else {
        None
    }
}

/// The texts of the character ranges `ranges` of `chars`.
pub open spec fn range_texts(chars: Seq<char>, ranges: Seq<(usize, usize)>) -> Seq<Seq<char>> {
    Seq::new(ranges.len(), |k: int| chars.subrange(ranges[k].0 as int, ranges[k].1 as int))
}

/// Every range lies within the first `n` characters.
pub open spec fn ranges_within(ranges: Seq<(usize, usize)>, n: nat) -> bool {
    forall|k: int| 0 <= k < ranges.len() ==> #[trigger] ranges[k].0 <= ranges[k].1 <= n
}

/// The characters of `s`.
pub fn chars_of(s: &str) -> (v: Vec<char>)
    ensures
        v@ == s@,
{
    let n = s.unicode_len();
    let mut v: Vec<char> = Vec::new();
    let mut i: usize = 0;
    while i < n
        invariant
            n == s@.len(),
            i <= n,
            v@ == s@.take(i as int),
        decreases n - i,
    {
        v.push(s.get_char(i));
        assert(s@.take(i + 1) == s@.take(i as int).push(s@[i as int]));
        i = i + 1;
    }
    assert(s@.take(n as int) == s@);
    v
}

/// The character ranges of the `_`-separated tokens of `chars`.
fn token_ranges(chars: &Vec<char>) -> (ranges: Vec<(usize, usize)>)
    ensures
        ranges_within(ranges@, chars@.len()),
        range_texts(chars@, ranges@) == split_tokens(chars@),
{
    let n = chars.len();
    let mut ranges: Vec<(usize, usize)> = Vec::new();
    let mut start: usize = 0;
    let mut i: usize = 0;
    assert(chars@.take(0) =~= Seq::<char>::empty());
    assert(chars@.subrange(0, 0) =~= Seq::<char>::empty());
    assert(range_texts(chars@, ranges@) =~= Seq::<Seq<char>>::empty());
    while i < n
        invariant
            n == chars@.len(),
            start <= i <= n,
            ranges_within(ranges@, i as nat),
            split_tokens(chars@.take(i as int)) == range_texts(chars@, ranges@).push(
                chars@.subrange(start as int, i as int),
            ),
        decreases n - i,
    {
        let ghost before = range_texts(chars@, ranges@);
        let ghost piece = chars@.subrange(start as int, i as int);
        assert(chars@.take(i + 1).drop_last() == chars@.take(i as int));
        if chars[i] == '_' {
            ranges.push((start, i));
            start = i + 1;
            assert(range_texts(chars@, ranges@) =~= before.push(piece));
            assert(chars@.subrange(start as int, i + 1) =~= Seq::<char>::empty());
            assert(split_tokens(chars@.take(i + 1)) =~= range_texts(chars@, ranges@).push(
                chars@.subrange(start as int, i + 1),
            ));
        } else {
            assert(chars@.subrange(start as int, i + 1) =~= piece.push(chars@[i as int]));
            assert(split_tokens(chars@.take(i + 1)) =~= range_texts(chars@, ranges@).push(
                chars@.subrange(start as int, i + 1),
            ));
        }
        i = i + 1;
    }
    let ghost before = range_texts(chars@, ranges@);
    ranges.push((start, n));
    assert(chars@.take(n as int) == chars@);
    assert(range_texts(chars@, ranges@) =~= before.push(chars@.subrange(start as int, n as int)));
    ranges
}

/// Characters `from` to `to` of `name`, as a new string.
fn text_between(name: &str, from: usize, to: usize) -> (t: String)
    requires
        from <= to <= name@.len(),
    ensures
        t@ == name@.subrange(from as int, to as int),
{
    name.substring_char(from, to).to_owned()
}

/// Reads the value texts of a camera folder name: `None` when the name does
/// not start with `Cam_`, else the texts that `camera_fields_of` gives.
pub fn parse_camera_name(name: &str) -> (r: Option<CameraFields>)
    ensures
        match r {
            Some(f) => camera_fields_of(name@) == Some(f@),
            None => camera_fields_of(name@) is None,
        },
{
    let chars = chars_of(name);
    let n = chars.len();
    let prefix_ok = n >= 4 && chars[0] == 'C' && chars[1] == 'a' && chars[2] == 'm' && chars[3]
        == '_';
    if !prefix_ok {
        assert(!has_prefix(name@, seq!['C', 'a', 'm', '_'])) by {
            if has_prefix(name@, seq!['C', 'a', 'm', '_']) {
                assert(name@.subrange(0, 4)[0] == 'C');
                assert(name@.subrange(0, 4)[1] == 'a');
                assert(name@.subrange(0, 4)[2] == 'm');
                assert(name@.subrange(0, 4)[3] == '_');
            }
        }
        return None;
    }
    assert(has_prefix(name@, seq!['C', 'a', 'm', '_'])) by {
        assert(name@.subrange(0, 4) =~= seq!['C', 'a', 'm', '_']);
    }
    let ranges = token_ranges(&chars);
    let ghost tokens = split_tokens(name@);
    let mut f = CameraFields {
        x: None,
        y: None,
        z: None,
        fov: None,
        rot_x: None,
        rot_y: None,
        rot_z: None,
    };
    let mut i: usize = 1;
    while i < ranges.len()
        invariant
            chars@ == name@,
            n == name@.len(),
            ranges_within(ranges@, n as nat),
            range_texts(chars@, ranges@) == tokens,
            tokens == split_tokens(name@),
            1 <= i,
            scan_tokens(tokens, 1, no_texts()) == scan_tokens(tokens, i as nat, f@),
        decreases ranges.len() - i,
    {
        let (a, b) = ranges[i];
        let ghost t = tokens[i as int];
        assert(t == name@.subrange(a as int, b as int));
        assert(b - a >= 1 ==> t[0] == chars@[a as int]);
        assert(b - a >= 3 ==> t[1] == chars@[a + 1] && t[2] == chars@[a + 2]);
        if b - a >= 1 && chars[a] == 'X' {
            assert(has_prefix(t, seq!['X'])) by {
                assert(t.subrange(0, 1) =~= seq!['X']);
            }
            f.x = Some(text_between(name, a + 1, b));
            assert(t.skip(1) =~= name@.subrange(a + 1, b as int));
            i = i + 1;
        } else if b - a >= 1 && chars[a] == 'Y' {
            assert(!has_prefix(t, seq!['X']) && has_prefix(t, seq!['Y'])) by {
                assert(t.subrange(0, 1)[0] == t[0]);
                assert(t.subrange(0, 1) =~= seq!['Y']);
            }
            f.y = Some(text_between(name, a + 1, b));
            assert(t.skip(1) =~= name@.subrange(a + 1, b as int));
            i = i + 1;
        } else if b - a >= 1 && chars[a] == 'Z' {
            assert(!has_prefix(t, seq!['X']) && !has_prefix(t, seq!['Y']) && has_prefix(
                t,
                seq!['Z'],
            )) by {
                assert(t.subrange(0, 1)[0] == t[0]);
                assert(t.subrange(0, 1) =~= seq!['Z']);
            }
            f.z = Some(text_between(name, a + 1, b));
            assert(t.skip(1) =~= name@.subrange(a + 1, b as int));
            i = i + 1;
        } else if b - a >= 3 && chars[a] == 'F' && chars[a + 1] == 'O' && chars[a + 2] == 'V' {
            assert(!has_prefix(t, seq!['X']) && !has_prefix(t, seq!['Y']) && !has_prefix(
                t,
                seq!['Z'],
            )) by {
                assert(t.subrange(0, 1)[0] == t[0]);
            }
            assert(has_prefix(t, seq!['F', 'O', 'V'])) by {
                assert(t.subrange(0, 3) =~= seq!['F', 'O', 'V']);
            }
            f.fov = Some(text_between(name, a + 3, b));
            assert(t.skip(3) =~= name@.subrange(a + 3, b as int));
            i = i + 1;
        } else if b - a >= 3 && chars[a] == 'R' && chars[a + 1] == 'o' && chars[a + 2] == 't' {
            assert(!has_prefix(t, seq!['X']) && !has_prefix(t, seq!['Y']) && !has_prefix(
                t,
                seq!['Z'],
            ) && !has_prefix(t, seq!['F', 'O', 'V'])) by {
                assert(t.subrange(0, 1)[0] == t[0]);
                if t.len() >= 3 {
                    assert(t.subrange(0, 3)[0] == t[0]);
                }
            }
            assert(has_prefix(t, seq!['R', 'o', 't'])) by {
                assert(t.subrange(0, 3) =~= seq!['R', 'o', 't']);
            }
            f.rot_x = Some(text_between(name, a + 3, b));
            assert(t.skip(3) =~= name@.subrange(a + 3, b as int));
            if ranges.len() - i > 2 {
                let (a1, b1) = ranges[i + 1];
                let (a2, b2) = ranges[i + 2];
                f.rot_y = Some(text_between(name, a1, b1));
                f.rot_z = Some(text_between(name, a2, b2));
                i = i + 3;
            } else {
                i = i + 1;
            }
        } else {
            assert(!has_prefix(t, seq!['X']) && !has_prefix(t, seq!['Y']) && !has_prefix(
                t,
                seq!['Z'],
            ) && !has_prefix(t, seq!['F', 'O', 'V']) && !has_prefix(t, seq!['R', 'o', 't'])) by {
                if t.len() >= 1 {
                    assert(t.subrange(0, 1)[0] == t[0]);
                }
                if t.len() >= 3 {
                    assert(t.subrange(0, 3)[0] == t[0]);
                    assert(t.subrange(0, 3)[1] == t[1]);
                    assert(t.subrange(0, 3)[2] == t[2]);
                }
            }
            i = i + 1;
        }
    }
    Some(f)
}

/// A unit of a camera name: a token that is not a rotation, or a rotation
/// token with the two value tokens after it.
pub open spec fn is_unit(u: Seq<Seq<char>>) -> bool {
    ||| (u.len() == 1 && !has_prefix(u[0], seq!['R', 'o', 't']))
    ||| (u.len() == 3 && has_prefix(u[0], seq!['R', 'o', 't']))
}

/// The field a unit sets: 1 to 5 for x, y, z, field of view and rotation,
/// 0 for none.
pub open spec fn unit_field(u: Seq<Seq<char>>) -> int {
    let t = u[0];
    if has_prefix(t, seq!['X']) {
        1
    } else if has_prefix(t, seq!['Y']) {
        2
    } else if has_prefix(t, seq!['Z']) {
        3
    } else if has_prefix(t, seq!['F', 'O', 'V']) {
        4
    } else if has_prefix(t, seq!['R', 'o', 't']) {
        5
    } else {
        0
    }
}

/// The tokens of `p` from index `i` on are whole units.
pub open spec fn whole_units(p: Seq<Seq<char>>, i: nat) -> bool
    decreases p.len() - i,
{
    if i >= p.len() {
        i == p.len()
    } else if has_prefix(p[i as int], seq!['R', 'o', 't']) {
        i + 3 <= p.len() && whole_units(p, i + 3)
    } else {
        whole_units(p, i + 1)
    }
}

/// Reading tokens after a prefix reads them as if the prefix were not there.
proof fn lemma_scan_shift(pre: Seq<Seq<char>>, rest: Seq<Seq<char>>, i: nat, f: FieldTexts)
    ensures
        scan_tokens(pre + rest, pre.len() + i, f) == scan_tokens(rest, i, f),
    decreases rest.len() - i,
{
    let all = pre + rest;
    if i < rest.len() {
        assert(all[pre.len() + i as int] == rest[i as int]);
        if i + 2 < rest.len() {
            assert(all[pre.len() + i + 1int] == rest[i + 1int]);
            assert(all[pre.len() + i + 2int] == rest[i + 2int]);
        }
        let t = rest[i as int];
        if has_prefix(t, seq!['X']) {
            lemma_scan_shift(pre, rest, i + 1, FieldTexts { x: Some(t.skip(1)), ..f });
        } else if has_prefix(t, seq!['Y']) {
            lemma_scan_shift(pre, rest, i + 1, FieldTexts { y: Some(t.skip(1)), ..f });
        } else if has_prefix(t, seq!['Z']) {
            lemma_scan_shift(pre, rest, i + 1, FieldTexts { z: Some(t.skip(1)), ..f });
        } else if has_prefix(t, seq!['F', 'O', 'V']) {
            lemma_scan_shift(pre, rest, i + 1, FieldTexts { fov: Some(t.skip(3)), ..f });
        } else if has_prefix(t, seq!['R', 'o', 't']) {
            if i + 2 < rest.len() {
                lemma_scan_shift(
                    pre,
                    rest,
                    i + 3,
                    FieldTexts {
                        rot_x: Some(t.skip(3)),
                        rot_y: Some(rest[i + 1int]),
                        rot_z: Some(rest[i + 2int]),
                        ..f
                    },
                );
            } else {
                lemma_scan_shift(pre, rest, i + 1, FieldTexts { rot_x: Some(t.skip(3)), ..f });
            }
        } else {
            lemma_scan_shift(pre, rest, i + 1, f);
        }
    }
}

/// Reading whole units of `p` and then what follows is reading `p` alone,
/// then going on from its end.
proof fn lemma_scan_prefix(p: Seq<Seq<char>>, x: Seq<Seq<char>>, i: nat, f: FieldTexts)
    requires
        whole_units(p, i),
    ensures
        scan_tokens(p + x, i, f) == scan_tokens(p + x, p.len(), scan_tokens(p, i, f)),
    decreases p.len() - i,
{
    let all = p + x;
    if i < p.len() {
        assert(all[i as int] == p[i as int]);
        let t = p[i as int];
        if has_prefix(t, seq!['X']) {
            lemma_scan_prefix(p, x, i + 1, FieldTexts { x: Some(t.skip(1)), ..f });
        } else if has_prefix(t, seq!['Y']) {
            lemma_scan_prefix(p, x, i + 1, FieldTexts { y: Some(t.skip(1)), ..f });
        } else if has_prefix(t, seq!['Z']) {
            lemma_scan_prefix(p, x, i + 1, FieldTexts { z: Some(t.skip(1)), ..f });
        } else if has_prefix(t, seq!['F', 'O', 'V']) {
            lemma_scan_prefix(p, x, i + 1, FieldTexts { fov: Some(t.skip(3)), ..f });
        } else if has_prefix(t, seq!['R', 'o', 't']) {
            assert(all[i + 1int] == p[i + 1int] && all[i + 2int] == p[i + 2int]);
            lemma_scan_prefix(
                p,
                x,
                i + 3,
                FieldTexts {
                    rot_x: Some(t.skip(3)),
                    rot_y: Some(p[i + 1int]),
                    rot_z: Some(p[i + 2int]),
                    ..f
                },
            );
        } else {
            lemma_scan_prefix(p, x, i + 1, f);
        }
    }
}

/// Reading a unit and then what follows.
proof fn lemma_scan_unit(u: Seq<Seq<char>>, x: Seq<Seq<char>>, f: FieldTexts)
    requires
        is_unit(u),
    ensures
        scan_tokens(u + x, 0, f) == scan_tokens(x, 0, scan_tokens(u, 0, f)),
{
    assert(whole_units(u, 0)) by {
        reveal_with_fuel(whole_units, 3);
    }
    lemma_scan_prefix(u, x, 0, f);
    lemma_scan_shift(u, x, 0, scan_tokens(u, 0, f));
}

/// The tokens of a sequence of units, one unit after another.
pub open spec fn unit_tokens(us: Seq<Seq<Seq<char>>>) -> Seq<Seq<char>>
    decreases us.len(),
{
    if us.len() == 0 {
        seq![]
    } else {
        us[0] + unit_tokens(us.drop_first())
    }
}

/// The value texts after reading the units `us` in turn, from `f`.
pub open spec fn apply_units(us: Seq<Seq<Seq<char>>>, f: FieldTexts) -> FieldTexts
    decreases us.len(),
{
    if us.len() == 0 {
        f
    } else {
        apply_units(us.drop_first(), scan_tokens(us[0], 0, f))
    }
}

/// The value texts of one kind: 1 to 4 for x, y, z and field of view, 5
/// for the three rotations.
pub open spec fn kind_fields(f: FieldTexts, k: int) -> Seq<Option<Seq<char>>> {
    if k == 1 {
        seq![f.x]
    } else if k == 2 {
        seq![f.y]
    } else if k == 3 {
        seq![f.z]
    } else if k == 4 {
        seq![f.fov]
    } else {
        seq![f.rot_x, f.rot_y, f.rot_z]
    }
}

/// The value texts a unit sets, for its kind.
pub open spec fn unit_values(u: Seq<Seq<char>>) -> Seq<Option<Seq<char>>> {
    let k = unit_field(u);
    if k == 1 || k == 2 || k == 3 {
        seq![Some(u[0].skip(1))]
    } else if k == 4 {
        seq![Some(u[0].skip(3))]
    } else if k == 5 {
        seq![Some(u[0].skip(3)), Some(u[1]), Some(u[2])]
    } else {
        seq![]
    }
}

/// All units of one kind in `us` are the same unit: each of X, Y, Z, FOV
/// and Rot is given at most once, or given again alike.
pub open spec fn kinds_unique(us: Seq<Seq<Seq<char>>>) -> bool {
    forall|i: int, j: int|
        0 <= i < us.len() && 0 <= j < us.len() && unit_field(#[trigger] us[i]) != 0 && unit_field(
            us[i],
        ) == unit_field(#[trigger] us[j]) ==> us[i] == us[j]
}

/// Every element of `us` is a unit.
pub open spec fn all_units(us: Seq<Seq<Seq<char>>>) -> bool {
    forall|i: int| 0 <= i < us.len() ==> is_unit(#[trigger] us[i])
}

/// Reading the tokens of units is reading the units in turn.
proof fn lemma_scan_units(us: Seq<Seq<Seq<char>>>, f: FieldTexts)
    requires
        all_units(us),
    ensures
        scan_tokens(unit_tokens(us), 0, f) == apply_units(us, f),
    decreases us.len(),
{
    if us.len() > 0 {
        let rest = us.drop_first();
        assert(is_unit(us[0]));
        assert(all_units(rest)) by {
            assert forall|i: int| 0 <= i < rest.len() implies is_unit(#[trigger] rest[i]) by {
                assert(rest[i] == us[i + 1]);
            }
        }
        lemma_scan_unit(us[0], unit_tokens(rest), f);
        lemma_scan_units(rest, scan_tokens(us[0], 0, f));
    } else {
        reveal_with_fuel(scan_tokens, 1);
    }
}

/// A unit sets the texts of its own kind and leaves the others.
proof fn lemma_unit_effect(u: Seq<Seq<char>>, f: FieldTexts, k: int)
    requires
        is_unit(u),
        1 <= k <= 5,
    ensures
        kind_fields(scan_tokens(u, 0, f), k) == if unit_field(u) == k {
            unit_values(u)
        } else {
            kind_fields(f, k)
        },
{
    reveal_with_fuel(scan_tokens, 2);
    assert(kind_fields(scan_tokens(u, 0, f), k) =~= if unit_field(u) == k {
        unit_values(u)
    } else {
        kind_fields(f, k)
    });
}

/// After reading units whose kinds are unique, the texts of a kind are
/// those of the unit of that kind, or untouched when there is none.
proof fn lemma_apply_units_kind(us: Seq<Seq<Seq<char>>>, f: FieldTexts, k: int)
    requires
        all_units(us),
        kinds_unique(us),
        1 <= k <= 5,
    ensures
        forall|u: Seq<Seq<char>>|
            us.contains(u) && unit_field(u) == k ==> kind_fields(apply_units(us, f), k)
                == unit_values(u),
        (forall|u: Seq<Seq<char>>| us.contains(u) ==> unit_field(u) != k) ==> kind_fields(
            apply_units(us, f),
            k,
        ) == kind_fields(f, k),
    decreases us.len(),
{
    if us.len() > 0 {
        let rest = us.drop_first();
        let f1 = scan_tokens(us[0], 0, f);
        assert(all_units(rest)) by {
            assert forall|i: int| 0 <= i < rest.len() implies is_unit(#[trigger] rest[i]) by {
                assert(rest[i] == us[i + 1]);
            }
        }
        assert(kinds_unique(rest)) by {
            assert forall|i: int, j: int|
                0 <= i < rest.len() && 0 <= j < rest.len() && unit_field(#[trigger] rest[i]) != 0
                    && unit_field(rest[i]) == unit_field(#[trigger] rest[j]) implies rest[i]
                == rest[j] by {
                assert(rest[i] == us[i + 1] && rest[j] == us[j + 1]);
            }
        }
        assert(is_unit(us[0]));
        lemma_apply_units_kind(rest, f1, k);
        lemma_unit_effect(us[0], f, k);
        assert(apply_units(us, f) == apply_units(rest, f1));
        assert forall|u: Seq<Seq<char>>| us.contains(u) && unit_field(u) == k implies kind_fields(
            apply_units(us, f),
            k,
        ) == unit_values(u) by {
            let i = choose|i: int| 0 <= i < us.len() && us[i] == u;
            if exists|v: Seq<Seq<char>>| rest.contains(v) && unit_field(v) == k {
                let v = choose|v: Seq<Seq<char>>| rest.contains(v) && unit_field(v) == k;
                let j = choose|j: int| 0 <= j < rest.len() && rest[j] == v;
                assert(us[j + 1] == v);
                assert(us[i] == us[j + 1]);
            } else {
                if i > 0 {
                    assert(rest[i - 1] == u);
                    assert(rest.contains(u));
                }
                assert(u == us[0]);
            }
        }
        if forall|u: Seq<Seq<char>>| us.contains(u) ==> unit_field(u) != k {
            assert(us.contains(us[0]));
            assert forall|u: Seq<Seq<char>>| rest.contains(u) implies unit_field(u) != k by {
                let j = choose|j: int| 0 <= j < rest.len() && rest[j] == u;
                assert(us[j + 1] == u);
                assert(us.contains(u));
            }
        }
    }
}

/// Texts that agree kind by kind are equal.
proof fn lemma_kinds_equal(f: FieldTexts, g: FieldTexts)
    requires
        forall|k: int| 1 <= k <= 5 ==> #[trigger] kind_fields(f, k) == kind_fields(g, k),
    ensures
        f == g,
{
    assert(kind_fields(f, 1)[0] == kind_fields(g, 1)[0]);
    assert(kind_fields(f, 2)[0] == kind_fields(g, 2)[0]);
    assert(kind_fields(f, 3)[0] == kind_fields(g, 3)[0]);
    assert(kind_fields(f, 4)[0] == kind_fields(g, 4)[0]);
    assert(kind_fields(f, 5)[0] == kind_fields(g, 5)[0]);
    assert(kind_fields(f, 5)[1] == kind_fields(g, 5)[1]);
    assert(kind_fields(f, 5)[2] == kind_fields(g, 5)[2]);
}

/// Reordering a camera name keeps its fields: two names whose tokens after
/// the first are the same units in any order (each rotation token with its
/// two values), each kind of X, Y, Z, FOV and Rot given by at most one unit,
/// read the same.
pub proof fn lemma_reordered_name_same_fields(
    n1: Seq<char>,
    n2: Seq<char>,
    t1: Seq<char>,
    t2: Seq<char>,
    us1: Seq<Seq<Seq<char>>>,
    us2: Seq<Seq<Seq<char>>>,
)
    requires
        has_prefix(n1, seq!['C', 'a', 'm', '_']),
        has_prefix(n2, seq!['C', 'a', 'm', '_']),
        split_tokens(n1) == seq![t1] + unit_tokens(us1),
        split_tokens(n2) == seq![t2] + unit_tokens(us2),
        all_units(us1),
        all_units(us2),
        kinds_unique(us1),
        forall|u: Seq<Seq<char>>| us1.contains(u) <==> us2.contains(u),
    ensures
        camera_fields_of(n1) == camera_fields_of(n2),
{
    assert(kinds_unique(us2)) by {
        assert forall|i: int, j: int|
            0 <= i < us2.len() && 0 <= j < us2.len() && unit_field(#[trigger] us2[i]) != 0
                && unit_field(us2[i]) == unit_field(#[trigger] us2[j]) implies us2[i] == us2[j] by {
            assert(us2.contains(us2[i]) && us2.contains(us2[j]));
            let a = choose|a: int| 0 <= a < us1.len() && us1[a] == us2[i];
            let b = choose|b: int| 0 <= b < us1.len() && us1[b] == us2[j];
            assert(us1[a] == us1[b]);
        }
    }
    lemma_scan_shift(seq![t1], unit_tokens(us1), 0, no_texts());
    lemma_scan_shift(seq![t2], unit_tokens(us2), 0, no_texts());
    lemma_scan_units(us1, no_texts());
    lemma_scan_units(us2, no_texts());
    let g1 = apply_units(us1, no_texts());
    let g2 = apply_units(us2, no_texts());
    assert forall|k: int| 1 <= k <= 5 implies #[trigger] kind_fields(g1, k) == kind_fields(g2, k) by {
        lemma_apply_units_kind(us1, no_texts(), k);
        lemma_apply_units_kind(us2, no_texts(), k);
        if exists|u: Seq<Seq<char>>| us1.contains(u) && unit_field(u) == k {
            let u = choose|u: Seq<Seq<char>>| us1.contains(u) && unit_field(u) == k;
            assert(us2.contains(u));
        } else {
            assert forall|u: Seq<Seq<char>>| us2.contains(u) implies unit_field(u) != k by {
                assert(us1.contains(u));
            }
        }
    }
    lemma_kinds_equal(g1, g2);
}

} // verus!
