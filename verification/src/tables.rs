//! Helpers for the legacy asset tables: pulling sprite paths out of
//! resource listings, resolving table paths against a root, and the
//! fixed action-column map.
//!
//! These work on raw bytes: the listings mix ASCII markup with
//! legacy-encoded names, so byte indices, not characters, are the
//! reliable unit.

use vstd::prelude::*;

use std::collections::HashMap;

verus! {

/// The five marker bytes `.spr"` that end a quoted sprite path.
pub open spec fn marker_at(s: Seq<u8>, i: int) -> bool {
    &&& 0 <= i
    &&& i + 5 <= s.len()
    &&& s[i] == 46
    &&& s[i + 1] == 115
    &&& s[i + 2] == 112
    &&& s[i + 3] == 114
    &&& s[i + 4] == 34
}

/// The first position at or after `i` where the marker occurs, or -1.
pub open spec fn first_marker_from(s: Seq<u8>, i: int) -> int
    decreases s.len() - i,
        when 0 <= i
{
    if i + 5 > s.len() {
        -1
    } else if marker_at(s, i) {
        i
    } else {
        first_marker_from(s, i + 1)
    }
}

/// The last double-quote at or before `i`, or -1.
pub open spec fn last_quote_before(s: Seq<u8>, i: int) -> int
    decreases i + 1,
        when -1 <= i
{
    if i < 0 {
        -1
    } else if s[i] == 34 {
        i
    } else {
        last_quote_before(s, i - 1)
    }
}

/// What a listing line yields: the bytes between the last quote before
/// the first `.spr"` marker and the end of `.spr`, provided something
/// more than the bare extension stands there.
pub open spec fn spec_extract_spr(s: Seq<u8>) -> Option<Seq<u8>> {
    let e = first_marker_from(s, 0);
    if e < 0 {
        None
    } else {
        let q = last_quote_before(s, e - 1);
        if q < 0 {
            None
        } else {
            let content = s.subrange(q + 1, e + 4);
            if content.len() > 4 {
                Some(content)
            } else {
                None
            }
        }
    }
}

/// Finds the quoted sprite path in one line of a resource listing: the
/// bytes from just after the opening quote through the `.spr`
/// extension, or nothing when the line holds no such path.
pub fn extract_spr_from_line(line: &[u8]) -> (r: Option<Vec<u8>>)
    ensures
        match r {
            Some(v) => spec_extract_spr(line@) == Some(v@),
            None => spec_extract_spr(line@) == None::<Seq<u8>>,
        },
{
    let n = line.len();
    let mut i: usize = 0;
    let e: usize;
    loop
        invariant
            i <= n,
            n == line@.len(),
            n <= usize::MAX,
            first_marker_from(line@, 0) == first_marker_from(line@, i as int),
        ensures
            first_marker_from(line@, 0) == first_marker_from(line@, i as int),
            i + 5 <= n ==> marker_at(line@, i as int),
            i + 5 > n ==> first_marker_from(line@, i as int) == -1,
        decreases n - i,
    {
        if n - i < 5 {
            break ;
        }
        if line[i] == 46 && line[i + 1] == 115 && line[i + 2] == 112 && line[i + 3] == 114
            && line[i + 4] == 34 {
            break ;
        }
        i = i + 1;
    }
    if n - i < 5 {
        return None;
    }
    e = i;

    let mut j: usize = e;
    let q: usize;
    loop
        invariant
            j <= e,
            e + 5 <= n,
            n == line@.len(),
            marker_at(line@, e as int),
            first_marker_from(line@, 0) == e as int,
            last_quote_before(line@, e as int - 1) == last_quote_before(line@, j as int - 1),
        ensures
            j <= e,
            e + 5 <= n,
            n == line@.len(),
            marker_at(line@, e as int),
            first_marker_from(line@, 0) == e as int,
            j > 0 ==> line@[j as int - 1] == 34 && last_quote_before(line@, e as int - 1) == j
                - 1,
            j == 0 ==> last_quote_before(line@, e as int - 1) == -1,
        decreases j,
    {
        if j == 0 {
            break ;
        }
        if line[j - 1] == 34 {
            break ;
        }
        j = j - 1;
    }
    if j == 0 {
        return None;
    }
    q = j - 1;

    // content spans (q, e + 4]: more than the 4 extension bytes long?
    if e - q <= 1 {
        return None;
    }
    let mut content: Vec<u8> = Vec::new();
    let mut k: usize = q + 1;
    while k < e + 4
        invariant
            q + 1 <= k <= e + 4,
            e + 5 <= n,
            n == line@.len(),
            content@ =~= line@.subrange(q as int + 1, k as int),
        decreases e + 4 - k,
    {
        content.push(line[k]);
        proof {
            assert(content@ =~= line@.subrange(q as int + 1, k as int + 1));
        }
        k = k + 1;
    }
    proof {
        assert(content@ =~= line@.subrange(q as int + 1, e as int + 4));
    }
    Some(content)
}

/// The fixed action-column map of the legacy action table: which named
/// action each data column holds.
pub fn load_action_map() -> (m: HashMap<usize, String>)
    ensures
        m@.dom() =~= Set::new(|k: usize| k <= 9),
        m@[0]@ == "stand"@,
        m@[1]@ == "walk"@,
        m@[2]@ == "run"@,
        m@[3]@ == "fight_run"@,
        m@[4]@ == "fight_stand"@,
        m@[5]@ == "attack1"@,
        m@[6]@ == "attack2"@,
        m@[7]@ == "magic"@,
        m@[8]@ == "sit"@,
        m@[9]@ == "die"@,
{
    broadcast use vstd::std_specs::hash::group_hash_axioms;

    let mut m: HashMap<usize, String> = HashMap::new();
    m.insert(0, "stand".to_owned());
    m.insert(1, "walk".to_owned());
    m.insert(2, "run".to_owned());
    m.insert(3, "fight_run".to_owned());
    m.insert(4, "fight_stand".to_owned());
    m.insert(5, "attack1".to_owned());
    m.insert(6, "attack2".to_owned());
    m.insert(7, "magic".to_owned());
    m.insert(8, "sit".to_owned());
    m.insert(9, "die".to_owned());
    m
}

/// The segments of a path, as sequences of bytes.
pub open spec fn segs_view(v: Seq<Vec<u8>>) -> Seq<Seq<u8>> {
    v.map_values(|x: Vec<u8>| x@)
}

/// One segment folded onto the stack: empty and `.` segments vanish,
/// `..` drops the nearest parent (or nothing at the root), anything
/// else is pushed.
pub open spec fn push_segment(segs: Seq<Seq<u8>>, cur: Seq<u8>) -> Seq<Seq<u8>> {
    if cur.len() == 0 || cur == seq![46u8] {
        segs
    } else if cur == seq![46u8, 46u8] {
        if segs.len() == 0 {
            segs
        } else {
            segs.drop_last()
        }
    } else {
        segs.push(cur)
    }
}

/// The segment stack after reading `s` from position `i`: bytes build
/// the current segment, and either slash closes it.
pub open spec fn resolve_fold(s: Seq<u8>, i: int, segs: Seq<Seq<u8>>, cur: Seq<u8>) -> Seq<
    Seq<u8>,
>
    decreases s.len() - i,
        when 0 <= i <= s.len()
{
    if i >= s.len() {
        push_segment(segs, cur)
    } else if s[i] == 47 || s[i] == 92 {
        resolve_fold(s, i + 1, push_segment(segs, cur), Seq::empty())
    } else {
        resolve_fold(s, i + 1, segs, cur.push(s[i]))
    }
}

/// Segments joined back into a path, each preceded by a forward slash.
pub open spec fn join_segments(segs: Seq<Seq<u8>>) -> Seq<u8>
    decreases segs.len(),
{
    if segs.len() == 0 {
        Seq::empty()
    } else {
        join_segments(segs.drop_last()) + seq![47u8] + segs.last()
    }
}

/// What resolving `file` against `root` yields: the two joined with a
/// slash, slashes normalized forward, `.` and `..` segments applied,
/// and a single leading slash (just `/` when nothing remains).
pub open spec fn spec_resolve_path(root: Seq<u8>, file: Seq<u8>) -> Seq<u8> {
    let segs = resolve_fold(root + seq![47u8] + file, 0, Seq::empty(), Seq::empty());
    if segs.len() == 0 {
        seq![47u8]
    } else {
        join_segments(segs)
    }
}

/// Folds one finished segment onto the stack.
fn push_seg(segs: &mut Vec<Vec<u8>>, cur: Vec<u8>)
    ensures
        segs_view(final(segs)@) == push_segment(segs_view(old(segs)@), cur@),
{
    if cur.len() == 0 {
    } else if cur.len() == 1 && cur[0] == 46 {
        proof {
            assert(cur@ =~= seq![46u8]);
        }
    } else if cur.len() == 2 && cur[0] == 46 && cur[1] == 46 {
        proof {
            assert(cur@ =~= seq![46u8, 46u8]);
        }
        if segs.len() > 0 {
            let ghost pre = segs@;
            segs.pop();
            proof {
                assert(segs_view(segs@) =~= segs_view(pre).drop_last());
            }
        }
    } else {
        let ghost pre = segs@;
        proof {
            assert(cur@ != seq![46u8] && cur@ != seq![46u8, 46u8]);
        }
        segs.push(cur);
        proof {
            assert(segs_view(segs@) =~= segs_view(pre).push(segs@[pre.len() as int]@));
        }
    }
}

/// Resolves a table path against a root directory the way the asset
/// tables expect: the two joined with a slash, backslashes folded to
/// forward slashes, `.` and `..` segments applied, and one leading
/// slash on the result.
pub fn resolve_game_path(root: &[u8], file: &[u8]) -> (r: Vec<u8>)
    ensures
        r@ == spec_resolve_path(root@, file@),
{
    let mut combined: Vec<u8> = Vec::new();
    combined.extend_from_slice(root);
    combined.push(47);
    combined.extend_from_slice(file);
    proof {
        assert(combined@ =~= root@ + seq![47u8] + file@);
    }

    let mut segs: Vec<Vec<u8>> = Vec::new();
    let mut cur: Vec<u8> = Vec::new();
    let ghost gsegs = resolve_fold(combined@, 0, Seq::empty(), Seq::empty());
    proof {
        assert(segs_view(segs@) =~= Seq::<Seq<u8>>::empty());
        assert(cur@ =~= Seq::<u8>::empty());
    }
    let n = combined.len();
    let mut i: usize = 0;
    while i < n
        invariant
            i <= n,
            n == combined@.len(),
            gsegs == resolve_fold(combined@, i as int, segs_view(segs@), cur@),
        decreases n - i,
    {
        let b = combined[i];
        if b == 47 || b == 92 {
            push_seg(&mut segs, cur);
            cur = Vec::new();
            proof {
                assert(cur@ =~= Seq::<u8>::empty());
            }
        } else {
            cur.push(b);
        }
        i = i + 1;
    }
    push_seg(&mut segs, cur);

    if segs.len() == 0 {
        let mut out: Vec<u8> = Vec::new();
        out.push(47);
        proof {
            assert(out@ =~= seq![47u8]);
        }
        return out;
    }
    let mut out: Vec<u8> = Vec::new();
    proof {
        assert(out@ =~= join_segments(segs_view(segs@).take(0)));
        assert(segs_view(segs@).take(0) =~= Seq::<Seq<u8>>::empty());
    }
    let m = segs.len();
    let mut k: usize = 0;
    while k < m
        invariant
            k <= m,
            m == segs@.len(),
            gsegs == segs_view(segs@),
            out@ == join_segments(segs_view(segs@).take(k as int)),
        decreases m - k,
    {
        out.push(47);
        let seg = &segs[k];
        out.extend_from_slice(seg.as_slice());
        proof {
            let sv = segs_view(segs@);
            assert(sv.take(k as int + 1).drop_last() =~= sv.take(k as int));
            assert(sv.take(k as int + 1).last() == sv[k as int]);
            assert(out@ =~= join_segments(sv.take(k as int)) + seq![47u8] + sv[k as int]);
        }
        k = k + 1;
    }
    proof {
        assert(segs_view(segs@).take(m as int) =~= segs_view(segs@));
    }
    out
}

} // verus!
