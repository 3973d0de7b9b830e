//! A textual model of path components.
//!
//! Paths are plain strings here. A path splits into *components*: the
//! pieces between `/` separators, with empty pieces dropped and a `.`
//! piece dropped unless it opens the string. A component is represented
//! by its text, so `..` stands for the parent-directory component and a
//! leading `.` for the current directory.

use vstd::prelude::*;

verus! {

/// Index of the first `/` in `s`, or `s.len()` if there is none.
pub open spec fn slash_idx(s: Seq<char>) -> int
    decreases s.len(),
{
    if s.len() == 0 {
        0
    } else if s[0] == '/' {
        0
    } else {
        1 + slash_idx(s.skip(1))
    }
}

pub proof fn lemma_slash_idx(s: Seq<char>)
    ensures
        0 <= slash_idx(s) <= s.len(),
        slash_idx(s) < s.len() ==> s[slash_idx(s)] == '/',
        forall|j: int| 0 <= j < slash_idx(s) ==> s[j] != '/',
    decreases s.len(),
{
    if s.len() > 0 && s[0] != '/' {
        lemma_slash_idx(s.skip(1));
        assert forall|j: int| 0 <= j < slash_idx(s) implies s[j] != '/' by {
            if j > 0 {
                assert(s.skip(1)[j - 1] == s[j]);
            }
        }
    }
}

/// The first `/` is at `i` exactly when nothing before `i` is a `/`.
pub proof fn lemma_slash_idx_at(s: Seq<char>, i: int)
    requires
        0 <= i <= s.len(),
        forall|j: int| 0 <= j < i ==> s[j] != '/',
        i < s.len() ==> s[i] == '/',
    ensures
        slash_idx(s) == i,
    decreases s.len(),
{
    if s.len() > 0 && s[0] != '/' {
        assert forall|j: int| 0 <= j < i - 1 implies s.skip(1)[j] != '/' by {
            assert(s.skip(1)[j] == s[j + 1]);
        }
        if i - 1 < s.skip(1).len() {
            assert(s.skip(1)[i - 1] == s[i]);
        }
        lemma_slash_idx_at(s.skip(1), i - 1);
    }
}

/// The components of `s`, each as its text. `leading` records whether
/// `s` starts at the beginning of the whole path, where a `.` piece is
/// kept rather than dropped.
pub open spec fn comps_from(s: Seq<char>, leading: bool) -> Seq<Seq<char>>
    decreases s.len(),
    via comps_from_dec
{
    if s.len() == 0 {
        Seq::empty()
    } else {
        let i = slash_idx(s);
        let piece = s.take(i);
        let tail = if i < s.len() {
            comps_from(s.skip(i + 1), false)
        } else {
            Seq::<Seq<char>>::empty()
        };
        if piece.len() == 0 || (!leading && piece == seq!['.']) {
            tail
        } else {
            seq![piece] + tail
        }
    }
}

#[via_fn]
proof fn comps_from_dec(s: Seq<char>, leading: bool) {
    lemma_slash_idx(s);
}

/// The components of a whole path string.
pub open spec fn comps_of(s: Seq<char>) -> Seq<Seq<char>> {
    comps_from(s, true)
}

/// A well-formed component text: non-empty and free of separators.
pub open spec fn comp_wf(c: Seq<char>) -> bool {
    c.len() > 0 && forall|j: int| 0 <= j < c.len() ==> c[j] != '/'
}

pub open spec fn is_parent(c: Seq<char>) -> bool {
    c == seq!['.', '.']
}

pub open spec fn is_cur(c: Seq<char>) -> bool {
    c == seq!['.']
}

/// A component that names an ordinary entry (neither `.` nor `..`).
pub open spec fn is_normal(c: Seq<char>) -> bool {
    !is_parent(c) && !is_cur(c)
}

pub open spec fn contains_parent(cs: Seq<Seq<char>>) -> bool {
    exists|k: int| 0 <= k < cs.len() && is_parent(cs[k])
}

/// Every parsed component is well formed, and `.` occurs at most as the
/// opening component of a leading slice.
pub proof fn lemma_comps_wf(s: Seq<char>, leading: bool)
    ensures
        forall|k: int| 0 <= k < comps_from(s, leading).len() ==> comp_wf(#[trigger] comps_from(
            s,
            leading,
        )[k]),
        forall|k: int|
            0 <= k < comps_from(s, leading).len() && (k > 0 || !leading) ==> !is_cur(
                #[trigger] comps_from(s, leading)[k],
            ),
    decreases s.len(),
{
    if s.len() > 0 {
        let i = slash_idx(s);
        lemma_slash_idx(s);
        let piece = s.take(i);
        let tail = if i < s.len() {
            comps_from(s.skip(i + 1), false)
        } else {
            Seq::<Seq<char>>::empty()
        };
        if i < s.len() {
            lemma_comps_wf(s.skip(i + 1), false);
        }
        assert(forall|j: int| 0 <= j < piece.len() ==> piece[j] == s[j]);
        if piece.len() == 0 || (!leading && piece == seq!['.']) {
            assert(comps_from(s, leading) == tail);
        } else {
            assert(comp_wf(piece));
            let cs = comps_from(s, leading);
            assert(cs == seq![piece] + tail);
            assert forall|k: int| 0 <= k < cs.len() implies comp_wf(#[trigger] cs[k]) by {
                if k == 0 {
                    assert(cs[k] == piece);
                } else {
                    assert(cs[k] == tail[k - 1]);
                }
            }
            assert forall|k: int| 0 <= k < cs.len() && (k > 0 || !leading) implies !is_cur(
                #[trigger] cs[k],
            ) by {
                if k == 0 {
                    assert(cs[k] == piece);
                    assert(piece != seq!['.']);
                } else {
                    assert(cs[k] == tail[k - 1]);
                }
            }
        }
    }
}

/// A non-empty relative string has at least one component.
pub proof fn lemma_comps_nonempty(s: Seq<char>)
    requires
        s.len() > 0,
        s[0] != '/',
    ensures
        comps_of(s).len() > 0,
        comps_of(s)[0] == s.take(slash_idx(s)),
{
    lemma_slash_idx(s);
    assert(slash_idx(s) > 0);
    let piece = s.take(slash_idx(s));
    assert(piece.len() > 0);
}

/// A joined sequence opens with its first component's first character.
pub proof fn lemma_join_first_char(cs: Seq<Seq<char>>)
    requires
        cs.len() > 0,
        cs[0].len() > 0,
    ensures
        join_slash(cs).len() > 0,
        join_slash(cs)[0] == cs[0][0],
{
    if cs.len() > 1 {
        assert(join_slash(cs) == cs[0] + seq!['/'] + join_slash(cs.skip(1)));
    }
}

/// A path string is absolute when it opens with a separator.
pub open spec fn is_absolute(s: Seq<char>) -> bool {
    s.len() > 0 && s[0] == '/'
}

/// Component texts joined with `/` separators.
pub open spec fn join_slash(cs: Seq<Seq<char>>) -> Seq<char>
    decreases cs.len(),
{
    if cs.len() == 0 {
        Seq::empty()
    } else if cs.len() == 1 {
        cs[0]
    } else {
        cs[0] + seq!['/'] + join_slash(cs.skip(1))
    }
}

/// One component appended to a path string, as `PathBuf::push` renders it.
pub open spec fn join_path(base: Seq<char>, c: Seq<char>) -> Seq<char> {
    if base.len() == 0 {
        c
    } else if base[base.len() - 1] == '/' {
        base + c
    } else {
        base + seq!['/'] + c
    }
}

/// The first `k` of the components `cs` appended to `base` in turn.
pub open spec fn join_all(base: Seq<char>, cs: Seq<Seq<char>>, k: int) -> Seq<char>
    decreases k,
{
    if k <= 0 {
        base
    } else {
        join_path(join_all(base, cs, k - 1), cs[k - 1])
    }
}

/// Appending one more component to a joined sequence.
pub proof fn lemma_join_slash_push(cs: Seq<Seq<char>>, c: Seq<char>)
    ensures
        cs.len() == 0 ==> join_slash(cs.push(c)) == c,
        cs.len() > 0 ==> join_slash(cs.push(c)) == join_slash(cs) + seq!['/'] + c,
    decreases cs.len(),
{
    if cs.len() == 0 {
        assert(join_slash(cs.push(c)) == cs.push(c)[0]);
        assert(cs.push(c)[0] == c);
    } else if cs.len() == 1 {
        assert(cs.push(c).skip(1) =~= seq![c]);
        assert(cs.push(c)[0] == cs[0]);
        assert(join_slash(cs.push(c)) == cs.push(c)[0] + seq!['/'] + join_slash(cs.push(c).skip(1)));
        assert(join_slash(cs) == cs[0]);
    } else {
        lemma_join_slash_push(cs.skip(1), c);
        assert(cs.push(c).skip(1) =~= cs.skip(1).push(c));
        assert(join_slash(cs.push(c)) == cs.push(c)[0] + seq!['/'] + join_slash(
            cs.skip(1).push(c),
        ));
        assert(cs.push(c)[0] == cs[0]);
    }
}

/// A joined sequence splits at any interior position.
pub proof fn lemma_join_slash_split(cs: Seq<Seq<char>>, k: int)
    requires
        0 < k < cs.len(),
    ensures
        join_slash(cs) == join_slash(cs.take(k)) + seq!['/'] + join_slash(cs.skip(k)),
    decreases k,
{
    if k == 1 {
        assert(cs.take(1) =~= seq![cs[0]]);
        assert(join_slash(cs.take(1)) == cs[0]);
    } else {
        lemma_join_slash_split(cs.skip(1), k - 1);
        assert(cs.skip(1).take(k - 1) =~= cs.take(k).skip(1));
        assert(cs.skip(1).skip(k - 1) =~= cs.skip(k));
        assert(join_slash(cs) == cs[0] + seq!['/'] + join_slash(cs.skip(1)));
        assert(join_slash(cs.take(k)) == cs.take(k)[0] + seq!['/'] + join_slash(
            cs.take(k).skip(1),
        ));
        assert(cs.take(k)[0] == cs[0]);
    }
}

/// Dropping leading components never lengthens the joined text.
pub proof fn lemma_join_slash_skip_len(cs: Seq<Seq<char>>, k: int)
    requires
        0 <= k <= cs.len(),
    ensures
        join_slash(cs.skip(k)).len() <= join_slash(cs).len(),
    decreases k,
{
    if k == 0 {
        assert(cs.skip(0) =~= cs);
    } else if cs.len() > 0 {
        if cs.len() == 1 {
            assert(cs.skip(k) =~= Seq::<Seq<char>>::empty());
        } else {
            lemma_join_slash_skip_len(cs.skip(1), k - 1);
            assert(cs.skip(1).skip(k - 1) =~= cs.skip(k));
            assert(join_slash(cs) == cs[0] + seq!['/'] + join_slash(cs.skip(1)));
            assert(join_slash(cs).len() >= join_slash(cs.skip(1)).len());
        }
    }
}

/// The rendered components of a string never outgrow the string itself.
pub proof fn lemma_comps_render_len(s: Seq<char>, leading: bool)
    ensures
        join_slash(comps_from(s, leading)).len() <= s.len(),
    decreases s.len(),
{
    if s.len() > 0 {
        let i = slash_idx(s);
        lemma_slash_idx(s);
        let piece = s.take(i);
        if i < s.len() {
            let rest = s.skip(i + 1);
            lemma_comps_render_len(rest, false);
            let tail = comps_from(rest, false);
            if piece.len() == 0 || (!leading && piece == seq!['.']) {
                assert(join_slash(comps_from(s, leading)).len() <= rest.len());
            } else {
                let cs = seq![piece] + tail;
                if tail.len() == 0 {
                    assert(cs.len() == 1);
                    assert(join_slash(cs) == piece);
                } else {
                    assert(cs.skip(1) =~= tail);
                    assert(join_slash(cs) == piece + seq!['/'] + join_slash(tail));
                }
            }
        } else {
            if !(piece.len() == 0 || (!leading && piece == seq!['.'])) {
                let cs = seq![piece] + Seq::<Seq<char>>::empty();
                assert(cs.len() == 1);
                assert(join_slash(cs) == piece);
            }
        }
    }
}

/// Rendering well-formed components and parsing the text back is the
/// identity; a leading slice may open with `.`, a later one may not.
pub proof fn lemma_reparse(cs: Seq<Seq<char>>, leading: bool)
    requires
        forall|k: int| 0 <= k < cs.len() ==> comp_wf(#[trigger] cs[k]),
        forall|k: int| 0 <= k < cs.len() && (k > 0 || !leading) ==> !is_cur(#[trigger] cs[k]),
    ensures
        comps_from(join_slash(cs), leading) == cs,
    decreases cs.len(),
{
    if cs.len() == 0 {
    } else if cs.len() == 1 {
        let s = cs[0];
        lemma_slash_idx_at(s, s.len() as int);
        assert(s.take(s.len() as int) =~= s);
        assert(comps_from(s, leading) =~= seq![s] + Seq::<Seq<char>>::empty());
        assert(comps_from(s, leading) =~= cs);
    } else {
        let s = join_slash(cs);
        let head = cs[0];
        let rest = join_slash(cs.skip(1));
        assert(s == head + seq!['/'] + rest);
        assert forall|j: int| 0 <= j < head.len() implies s[j] != '/' by {
            assert(s[j] == head[j]);
        }
        assert(s[head.len() as int] == '/');
        lemma_slash_idx_at(s, head.len() as int);
        assert(s.take(head.len() as int) =~= head);
        assert(s.skip(head.len() as int + 1) =~= rest);
        assert forall|k: int| 0 <= k < cs.skip(1).len() implies comp_wf(#[trigger] cs.skip(1)[k])
            && !is_cur(cs.skip(1)[k]) by {
            assert(cs.skip(1)[k] == cs[k + 1]);
        }
        lemma_reparse(cs.skip(1), false);
        assert(comps_from(s, leading) =~= seq![head] + cs.skip(1));
        assert(seq![head] + cs.skip(1) =~= cs);
    }
}

/// Index of the first `/` in `s`, or its length if there is none.
fn find_slash(s: &str) -> (r: usize)
    ensures
        r == slash_idx(s@),
{
    let n = s.unicode_len();
    let mut i: usize = 0;
    while i < n
        invariant
            i <= n,
            n as nat == s@.len(),
            forall|j: int| 0 <= j < i ==> s@[j] != '/',
        decreases n - i,
    {
        if s.get_char(i) == '/' {
            proof {
                lemma_slash_idx_at(s@, i as int);
            }
            return i;
        }
        i += 1;
    }
    proof {
        lemma_slash_idx_at(s@, n as int);
    }
    n
}

/// Whether `s` is exactly the current-directory piece `.`.
fn is_dot_piece(s: &str) -> (r: bool)
    ensures
        r == is_cur(s@),
{
    if s.unicode_len() == 1 && s.get_char(0) == '.' {
        proof {
            assert(s@ =~= seq!['.']);
        }
        true
    } else {
        proof {
            if s@ == seq!['.'] {
                assert(s@.len() == 1);
                assert(s@[0] == '.');
            }
        }
        false
    }
}

/// Whether `s` is exactly the parent-directory piece `..`.
pub(crate) fn is_parent_piece(s: &str) -> (r: bool)
    ensures
        r == is_parent(s@),
{
    if s.unicode_len() == 2 && s.get_char(0) == '.' && s.get_char(1) == '.' {
        proof {
            assert(s@ =~= seq!['.', '.']);
        }
        true
    } else {
        proof {
            if s@ == seq!['.', '.'] {
                assert(s@.len() == 2);
                assert(s@[0] == '.');
                assert(s@[1] == '.');
            }
        }
        false
    }
}

/// Whether `s` names an ordinary entry (neither `.` nor `..`).
pub(crate) fn is_normal_piece(s: &str) -> (r: bool)
    ensures
        r == is_normal(s@),
{
    !is_parent_piece(s) && !is_dot_piece(s)
}

fn parse_from(s: &str, leading: bool) -> (r: Vec<String>)
    ensures
        r.deep_view() == comps_from(s@, leading),
    decreases s@.len(),
{
    let n = s.unicode_len();
    if n == 0 {
        let r = Vec::<String>::new();
        proof {
            assert(r.deep_view() =~= comps_from(s@, leading));
        }
        return r;
    }
    let i = find_slash(s);
    proof {
        lemma_slash_idx(s@);
    }
    let piece = s.substring_char(0, i);
    proof {
        assert(piece@ =~= s@.take(i as int));
    }
    let mut tail: Vec<String> = if i < n {
        let rest = s.substring_char(i + 1, n);
        proof {
            assert(rest@ =~= s@.skip(i as int + 1));
        }
        parse_from(rest, false)
    } else {
        let t = Vec::<String>::new();
        proof {
            assert(t.deep_view() =~= Seq::<Seq<char>>::empty());
        }
        t
    };
    let drop_piece = piece.unicode_len() == 0 || (!leading && is_dot_piece(piece));
    if drop_piece {
        tail
    } else {
        let ghost old_tail = tail.deep_view();
        let ghost before = tail@;
        tail.insert(0, String::from_str(piece));
        proof {
            assert forall|k: int| 0 <= k < tail.deep_view().len() implies tail.deep_view()[k] == (
            seq![piece@] + old_tail)[k] by {
                assert(tail.deep_view()[k] == tail@[k]@);
                if k == 0 {
                    assert(tail@[0]@ == piece@);
                } else {
                    assert(tail@[k] == before[k - 1]);
                    assert(before[k - 1]@ == old_tail[k - 1]);
                }
            }
            assert(tail.deep_view() =~= seq![piece@] + old_tail);
        }
        tail
    }
}

/// The components of `s`, each as an owned text.
pub fn parse_components(s: &str) -> (r: Vec<String>)
    ensures
        r.deep_view() == comps_of(s@),
{
    parse_from(s, true)
}

/// Whether `s` is an absolute path.
pub fn absolute(s: &str) -> (r: bool)
    ensures
        r == is_absolute(s@),
{
    s.unicode_len() > 0 && s.get_char(0) == '/'
}

/// `c` appended to `base` with a separator where one is needed.
pub fn join_push(base: &str, c: &str) -> (r: String)
    ensures
        r@ == join_path(base@, c@),
{
    let n = base.unicode_len();
    let mut r = String::new();
    r.append(base);
    if n > 0 && base.get_char(n - 1) != '/' {
        r.append("/");
        proof {
            reveal_strlit("/");
        }
    }
    r.append(c);
    proof {
        if n > 0 && base@[n - 1] != '/' {
            assert(r@ =~= base@ + seq!['/'] + c@);
        } else {
            assert(r@ =~= base@ + c@);
            if n == 0 {
                assert(r@ =~= c@);
            }
        }
    }
    r
}

/// The components `v[from..]` joined with `/` separators.
pub fn join_range(v: &Vec<String>, from: usize) -> (r: String)
    requires
        from <= v@.len(),
    ensures
        r@ == join_slash(v.deep_view().skip(from as int)),
{
    let ghost dv = v.deep_view();
    let mut r = String::new();
    let mut i = from;
    while i < v.len()
        invariant
            from <= i <= v@.len(),
            dv == v.deep_view(),
            dv.len() == v@.len(),
            r@ == join_slash(dv.subrange(from as int, i as int)),
        decreases v@.len() - i,
    {
        if i > from {
            r.append("/");
            proof {
                reveal_strlit("/");
            }
        }
        r.append(v[i].as_str());
        proof {
            let prev = dv.subrange(from as int, i as int);
            lemma_join_slash_push(prev, dv[i as int]);
            assert(dv.subrange(from as int, i as int + 1) =~= prev.push(dv[i as int]));
            if i > from {
                assert(r@ =~= join_slash(prev) + seq!['/'] + dv[i as int]);
            } else {
                assert(prev.len() == 0);
                assert(r@ =~= dv[i as int]);
            }
        }
        i += 1;
    }
    proof {
        assert(dv.subrange(from as int, dv.len() as int) =~= dv.skip(from as int));
    }
    r
}

/// The path that `path` names below `root`: the components of `path`
/// past those of `root`, joined back into a relative string. `None`
/// when `path` does not start with `root`'s components.
pub open spec fn strip_spec(root: Seq<char>, path: Seq<char>) -> Option<Seq<char>> {
    let rc = comps_of(root);
    let pc = comps_of(path);
    if is_absolute(root) == is_absolute(path) && rc.len() <= pc.len() && pc.take(rc.len() as int)
        == rc {
        Some(join_slash(pc.skip(rc.len() as int)))
    } else {
        None
    }
}

/// Strips `root`'s components from the front of `path`.
pub fn strip_prefix_str(root: &str, path: &str) -> (r: Option<String>)
    ensures
        match r {
            Some(rel) => strip_spec(root@, path@) == Some(rel@),
            None => strip_spec(root@, path@) is None,
        },
{
    let ghost rcs = comps_of(root@);
    let ghost pcs = comps_of(path@);
    if absolute(root) != absolute(path) {
        return None;
    }
    let rc = parse_components(root);
    let pc = parse_components(path);
    if rc.len() > pc.len() {
        return None;
    }
    let mut i: usize = 0;
    while i < rc.len()
        invariant
            i <= rc@.len(),
            rc@.len() <= pc@.len(),
            rcs == comps_of(root@),
            pcs == comps_of(path@),
            rc.deep_view() == rcs,
            pc.deep_view() == pcs,
            rcs.len() == rc@.len(),
            pcs.len() == pc@.len(),
            forall|j: int| 0 <= j < i ==> rcs[j] == pcs[j],
        decreases rc@.len() - i,
    {
        if !(rc[i] == pc[i]) {
            proof {
                assert(rcs[i as int] != pcs[i as int]);
                assert(pcs.take(rcs.len() as int)[i as int] == pcs[i as int]);
                assert(pcs.take(rcs.len() as int) != rcs);
            }
            return None;
        }
        i += 1;
    }
    proof {
        assert(pcs.take(rcs.len() as int) =~= rcs);
    }
    Some(join_range(&pc, rc.len()))
}

} // verus!
