//! The process-scan logic: pick the open project directories out of
//! process argument lists, by the project-file extension. Enumerating the
//! processes themselves is the caller's business.
use vstd::prelude::*;

verus! {

use crate::text::{chars_end_with, chars_to_string, ends_with, string_to_chars};

/// The EDA tool's project-file extension, with its dot.
pub open spec fn project_ext() -> Seq<char> {
    seq!['.', 'k', 'i', 'c', 'a', 'd', '_', 'p', 'r', 'o']
}

/// Position of the last path separator, or `-1`.
pub open spec fn last_sep_idx(s: Seq<char>) -> int
    decreases s.len(),
{
    if s.len() == 0 {
        -1
    } else if s.last() == '/' || s.last() == '\\' {
        s.len() - 1
    } else {
        last_sep_idx(s.drop_last())
    }
}

/// The parent directory of a path: everything before the last separator,
/// a bare root when the separator leads, empty when there is none.
pub open spec fn parent_of(s: Seq<char>) -> Seq<char> {
    if last_sep_idx(s) < 0 {
        Seq::empty()
    } else if last_sep_idx(s) == 0 {
        s.take(1)
    } else {
        s.take(last_sep_idx(s))
    }
}

/// The last separator never points past the end.
proof fn lemma_last_sep_bound(s: Seq<char>)
    ensures
        last_sep_idx(s) < s.len(),
        last_sep_idx(s) >= -1,
    decreases s.len(),
{
    if s.len() > 0 && !(s.last() == '/' || s.last() == '\\') {
        lemma_last_sep_bound(s.drop_last());
    }
}

/// Whether `d` is the parent directory of some project-file argument.
pub open spec fn dir_from(al: Seq<Seq<Seq<char>>>, d: Seq<char>) -> bool {
    exists|i: int, j: int|
        0 <= i < al.len() && 0 <= j < (#[trigger] al[i]).len() && ends_with(
            #[trigger] al[i][j],
            project_ext(),
        ) && d == parent_of(al[i][j])
}

/// Scan order on argument positions: list first, then place in the list.
pub open spec fn scan_earlier(i1: int, j1: int, i2: int, j2: int) -> bool {
    i1 < i2 || (i1 == i2 && j1 < j2)
}

/// Argument `j` of list `i` names a project file whose parent is `d`.
pub open spec fn yields_dir(al: Seq<Seq<Seq<char>>>, i: int, j: int, d: Seq<char>) -> bool {
    &&& 0 <= i < al.len()
    &&& 0 <= j < al[i].len()
    &&& ends_with(al[i][j], project_ext())
    &&& d == parent_of(al[i][j])
}

/// `a` first occurs before `b`: every argument yielding `b` comes after
/// some argument yielding `a`.
pub open spec fn first_seen_before(al: Seq<Seq<Seq<char>>>, a: Seq<char>, b: Seq<char>) -> bool {
    forall|i2: int, j2: int|
        #[trigger] yields_dir(al, i2, j2, b) ==> exists|i1: int, j1: int|
            #[trigger] yields_dir(al, i1, j1, a) && scan_earlier(i1, j1, i2, j2)
}

/// `d` was yielded by some argument before the given scan position.
pub open spec fn seen_by(al: Seq<Seq<Seq<char>>>, d: Seq<char>, i: int, j: int) -> bool {
    exists|i0: int, j0: int| #[trigger] yields_dir(al, i0, j0, d) && scan_earlier(i0, j0, i, j)
}

/// Having been seen persists as the scan position advances.
proof fn lemma_seen_by_mono(al: Seq<Seq<Seq<char>>>, d: Seq<char>, i1: int, j1: int, i2: int, j2: int)
    requires
        seen_by(al, d, i1, j1),
        i1 < i2 || (i1 == i2 && j1 <= j2),
    ensures
        seen_by(al, d, i2, j2),
{
    let (i0, j0) = choose|i0: int, j0: int|
        #[trigger] yields_dir(al, i0, j0, d) && scan_earlier(i0, j0, i1, j1);
    assert(yields_dir(al, i0, j0, d) && scan_earlier(i0, j0, i2, j2));
}

/// The parent directory of one path.
pub fn parent_dir(s: &String) -> (r: String)
    ensures
        r@ == parent_of(s@),
{
    let chars = string_to_chars(s);
    proof {
        assert(s@.take(s@.len() as int) =~= s@);
    }
    let mut i: usize = chars.len();
    loop
        invariant_except_break
            0 <= i <= chars@.len(),
            chars@ == s@,
            last_sep_idx(s@) == last_sep_idx(s@.take(i as int)),
        ensures
            chars@ == s@,
            i == 0 ==> last_sep_idx(s@) == -1,
            i > 0 ==> last_sep_idx(s@) == i - 1,
            i <= chars@.len(),
        decreases i,
    {
        if i == 0 {
            proof {
                assert(s@.take(0) =~= Seq::<char>::empty());
            }
            break ;
        }
        let c = chars[i - 1];
        proof {
            assert(s@.take(i as int).last() == s@[i - 1]);
            assert(s@.take(i as int).drop_last() =~= s@.take(i - 1));
        }
        if c == '/' || c == '\\' {
            proof {
                assert(last_sep_idx(s@.take(i as int)) == i - 1);
            }
            break ;
        }
        i = i - 1;
    }
    proof {
        lemma_last_sep_bound(s@);
    }
    if i == 0 {
        String::new()
    } else if i == 1 {
        let mut one: Vec<char> = Vec::new();
        one.push(chars[0]);
        proof {
            assert(one@ =~= s@.take(1));
        }
        chars_to_string(&one)
    } else {
        let mut out: Vec<char> = Vec::new();
        let n = i - 1;
        let mut j: usize = 0;
        while j < n
            invariant
                0 <= j <= n,
                n < chars@.len(),
                chars@ == s@,
                out@ == s@.take(j as int),
            decreases n - j,
        {
            out.push(chars[j]);
            proof {
                assert(out@ =~= s@.take(j + 1));
            }
            j = j + 1;
        }
        chars_to_string(&out)
    }
}

/// Pull the open project directories out of process argument lists: the
/// parent directory of every argument naming a project file, first
/// occurrence first, without repeats.
pub fn extract_project_dirs_from_args(args_lists: &Vec<Vec<String>>) -> (r: Vec<String>)
    ensures
        forall|d: int|
            0 <= d < r@.len() ==> dir_from(args_lists.deep_view(), #[trigger] r.deep_view()[d]),
        forall|i: int, j: int|
            0 <= i < args_lists.deep_view().len() && 0 <= j < (
            #[trigger] args_lists.deep_view()[i]).len() && ends_with(
                #[trigger] args_lists.deep_view()[i][j],
                project_ext(),
            ) ==> r.deep_view().contains(parent_of(args_lists.deep_view()[i][j])),
        forall|a: int, b: int| 0 <= a < b < r@.len() ==> r.deep_view()[a] != r.deep_view()[b],
        forall|a: int, b: int|
            0 <= a < b < r@.len() ==> first_seen_before(
                args_lists.deep_view(),
                #[trigger] r.deep_view()[a],
                #[trigger] r.deep_view()[b],
            ),
{
    let ghost al = args_lists.deep_view();
    let ext: Vec<char> = vec!['.', 'k', 'i', 'c', 'a', 'd', '_', 'p', 'r', 'o'];
    proof {
        assert(ext@ =~= project_ext());
    }
    let mut r: Vec<String> = Vec::new();
    let mut i: usize = 0;
    while i < args_lists.len()
        invariant
            0 <= i <= args_lists@.len(),
            al == args_lists.deep_view(),
            al.len() == args_lists@.len(),
            ext@ == project_ext(),
            forall|d: int| 0 <= d < r@.len() ==> dir_from(al, #[trigger] r.deep_view()[d]),
            forall|i2: int, j2: int|
                0 <= i2 < i && 0 <= j2 < (#[trigger] al[i2]).len() && ends_with(
                    #[trigger] al[i2][j2],
                    project_ext(),
                ) ==> r.deep_view().contains(parent_of(al[i2][j2])),
            forall|a: int, b: int| 0 <= a < b < r@.len() ==> r.deep_view()[a] != r.deep_view()[b],
            forall|d: int| 0 <= d < r@.len() ==> seen_by(al, #[trigger] r.deep_view()[d], i as int, 0),
            forall|a: int, b: int|
                0 <= a < b < r@.len() ==> first_seen_before(
                    al,
                    #[trigger] r.deep_view()[a],
                    #[trigger] r.deep_view()[b],
                ),
        decreases args_lists@.len() - i,
    {
        let args = &args_lists[i];
        proof {
            assert(al[i as int] == args_lists@[i as int].deep_view());
        }
        let mut j: usize = 0;
        while j < args.len()
            invariant
                0 <= j <= args@.len(),
                0 <= i < args_lists@.len(),
                args == args_lists@[i as int],
                al == args_lists.deep_view(),
                al.len() == args_lists@.len(),
                al[i as int] == args_lists@[i as int].deep_view(),
                al[i as int].len() == args@.len(),
                ext@ == project_ext(),
                forall|d: int| 0 <= d < r@.len() ==> dir_from(al, #[trigger] r.deep_view()[d]),
                forall|i2: int, j2: int|
                    0 <= i2 < i && 0 <= j2 < (#[trigger] al[i2]).len() && ends_with(
                        #[trigger] al[i2][j2],
                        project_ext(),
                    ) ==> r.deep_view().contains(parent_of(al[i2][j2])),
                forall|j2: int|
                    0 <= j2 < j && ends_with(#[trigger] al[i as int][j2], project_ext())
                        ==> r.deep_view().contains(parent_of(al[i as int][j2])),
                forall|a: int, b: int|
                    0 <= a < b < r@.len() ==> r.deep_view()[a] != r.deep_view()[b],
                forall|d: int|
                    0 <= d < r@.len() ==> seen_by(
                        al,
                        #[trigger] r.deep_view()[d],
                        i as int,
                        j as int,
                    ),
                forall|a: int, b: int|
                    0 <= a < b < r@.len() ==> first_seen_before(
                        al,
                        #[trigger] r.deep_view()[a],
                        #[trigger] r.deep_view()[b],
                    ),
            decreases args@.len() - j,
        {
            let ghost rprev = r.deep_view();
            let arg_chars = string_to_chars(&args[j]);
            proof {
                assert(al[i as int][j as int] == args@[j as int]@);
            }
            if chars_end_with(&arg_chars, &ext) {
                let dir = parent_dir(&args[j]);
                let ghost rbefore = r.deep_view();
                if !crate::store::contains_string(&r, &dir) {
                    r.push(dir);
                    proof {
                        assert(r.deep_view() =~~= rbefore.push(parent_of(al[i as int][j as int])));
                        assert(forall|m: int|
                            0 <= m < rbefore.len() ==> #[trigger] r.deep_view()[m] == rbefore[m]);
                        assert(forall|x: Seq<char>| #[trigger]
                            rbefore.contains(x) ==> r.deep_view().contains(x)) by {
                            assert forall|x: Seq<char>| #[trigger]
                                rbefore.contains(x) implies r.deep_view().contains(x) by {
                                let m = choose|m: int|
                                    0 <= m < rbefore.len() && #[trigger] rbefore[m] == x;
                                assert(r.deep_view()[m] == x);
                            }
                        }
                        assert(r.deep_view()[r.deep_view().len() - 1] == parent_of(
                            al[i as int][j as int],
                        ));
                        assert(dir_from(al, parent_of(al[i as int][j as int])));
                        assert forall|d: int|
                            0 <= d < r@.len() implies dir_from(al, #[trigger] r.deep_view()[
                            d
                        ]) by {
                            if d < rbefore.len() {
                                assert(r.deep_view()[d] == rbefore[d]);
                                assert(dir_from(al, rbefore[d]));
                            }
                        }
                        assert forall|a: int, b: int|
                            0 <= a < b < r@.len() implies r.deep_view()[a] != r.deep_view()[
                            b
                        ] by {
                            if b == r@.len() - 1 {
                                assert(rbefore.contains(rbefore[a]));
                            }
                        }
                        let ghost dnew = parent_of(al[i as int][j as int]);
                        assert(yields_dir(al, i as int, j as int, dnew));
                        assert forall|a: int, b: int|
                            0 <= a < b < r@.len() implies first_seen_before(
                            al,
                            r.deep_view()[a],
                            r.deep_view()[b],
                        ) by {
                            if b == r@.len() - 1 {
                                assert(r.deep_view()[a] == rbefore[a]);
                                assert(seen_by(al, rbefore[a], i as int, j as int));
                                let (i1, j1) = choose|i1: int, j1: int|
                                    #[trigger] yields_dir(al, i1, j1, rbefore[a]) && scan_earlier(
                                        i1,
                                        j1,
                                        i as int,
                                        j as int,
                                    );
                                assert forall|i2: int, j2: int|
                                    #[trigger] yields_dir(al, i2, j2, dnew) implies exists|
                                    i3: int,
                                    j3: int,
                                |
                                    #[trigger] yields_dir(al, i3, j3, rbefore[a]) && scan_earlier(
                                        i3,
                                        j3,
                                        i2,
                                        j2,
                                    ) by {
                                    if scan_earlier(i2, j2, i as int, j as int) {
                                        assert(rbefore.contains(parent_of(al[i2][j2])));
                                        assert(false);
                                    }
                                    assert(yields_dir(al, i1, j1, rbefore[a]) && scan_earlier(
                                        i1,
                                        j1,
                                        i2,
                                        j2,
                                    ));
                                }
                            } else {
                                assert(r.deep_view()[a] == rbefore[a]);
                                assert(r.deep_view()[b] == rbefore[b]);
                            }
                        }
                    }
                } else {
                    proof {
                        assert(r.deep_view().contains(parent_of(al[i as int][j as int])));
                    }
                }
            }
            proof {
                assert forall|d: int| 0 <= d < r@.len() implies seen_by(
                    al,
                    #[trigger] r.deep_view()[d],
                    i as int,
                    j as int + 1,
                ) by {
                    if d < rprev.len() && r.deep_view()[d] == rprev[d] {
                        lemma_seen_by_mono(
                            al,
                            r.deep_view()[d],
                            i as int,
                            j as int,
                            i as int,
                            j as int + 1,
                        );
                    } else {
                        assert(yields_dir(al, i as int, j as int, r.deep_view()[d]));
                        assert(scan_earlier(i as int, j as int, i as int, j as int + 1));
                    }
                }
            }
            j = j + 1;
        }
        proof {
            assert forall|d: int| 0 <= d < r@.len() implies seen_by(
                al,
                #[trigger] r.deep_view()[d],
                i as int + 1,
                0,
            ) by {
                lemma_seen_by_mono(
                    al,
                    r.deep_view()[d],
                    i as int,
                    args@.len() as int,
                    i as int + 1,
                    0,
                );
            }
        }
        i = i + 1;
    }
    r
}

} // verus!
