use crate::commit::{Commit, CommitGroup};
use crate::error::FilterError;
use itertools::Itertools;
use vstd::prelude::*;
use vstd::seq_lib::lemma_multiset_commutative;

verus! {

/// Index of the first entry of `groups` equal to `name`, or the length of
/// `groups` where there is none.
pub open spec fn position_of(groups: Seq<String>, name: Seq<char>) -> nat
    decreases groups.len(),
{
    if groups.len() == 0 {
        0
    } else if groups[0]@ == name {
        0
    } else {
        1 + position_of(groups.drop_first(), name)
    }
}

/// `name` appears in the ordering list `groups`.
pub open spec fn listed(groups: Seq<String>, name: Seq<char>) -> bool {
    position_of(groups, name) < groups.len()
}

/// The commit belongs to the group `name`.
pub open spec fn in_group(c: Commit, name: Seq<char>) -> bool {
    c.group is Some && c.group->0@ == name
}

/// The commits of group `name`, in their order in `commits`.
pub open spec fn bucket(commits: Seq<Commit>, name: Seq<char>) -> Seq<Commit> {
    commits.filter(|c: Commit| in_group(c, name))
}

/// Every commit carries a group.
pub open spec fn all_grouped(commits: Seq<Commit>) -> bool {
    forall|k: int| 0 <= k < commits.len() ==> (#[trigger] commits[k]).group is Some
}

/// `r` is the grouping of `commits` under the ordering list `groups`: one
/// section for each listed group that some commit carries, sections in the
/// order of the list, each holding that group's commits in input order.
pub open spec fn is_grouping(commits: Seq<Commit>, groups: Seq<String>, r: Seq<CommitGroup>) -> bool {
    &&& forall|i: int| 0 <= i < r.len() ==> listed(groups, (#[trigger] r[i]).group@)
    &&& forall|i: int, j: int|
        0 <= i < j < r.len() ==> position_of(groups, (#[trigger] r[i]).group@) < position_of(
            groups,
            (#[trigger] r[j]).group@,
        )
    &&& forall|i: int|
        0 <= i < r.len() ==> (#[trigger] r[i]).commits@ == bucket(commits, r[i].group@)
            && r[i].commits@.len() > 0
    &&& forall|k: int|
        0 <= k < commits.len() && (#[trigger] commits[k]).group is Some && listed(
            groups,
            commits[k].group->0@,
        ) ==> exists|i: int| 0 <= i < r.len() && (#[trigger] r[i]).group@ == commits[k].group->0@
}

proof fn lemma_position(groups: Seq<String>, name: Seq<char>)
    ensures
        position_of(groups, name) <= groups.len(),
        listed(groups, name) ==> groups[position_of(groups, name) as int]@ == name,
        forall|j: int| 0 <= j < position_of(groups, name) ==> (#[trigger] groups[j])@ != name,
    decreases groups.len(),
{
    if groups.len() > 0 && groups[0]@ != name {
        let rest = groups.drop_first();
        lemma_position(rest, name);
        assert forall|j: int| 0 <= j < position_of(groups, name) implies (
        #[trigger] groups[j])@ != name by {
            if j > 0 {
                assert(groups[j] == rest[j - 1]);
            }
        }
    }
}

proof fn lemma_position_unique(groups: Seq<String>, name: Seq<char>, r: int)
    requires
        0 <= r <= groups.len(),
        r < groups.len() ==> groups[r]@ == name,
        forall|j: int| 0 <= j < r ==> (#[trigger] groups[j])@ != name,
    ensures
        position_of(groups, name) == r,
{
    lemma_position(groups, name);
}

proof fn lemma_position_injective(groups: Seq<String>, a: Seq<char>, b: Seq<char>)
    requires
        listed(groups, a),
        position_of(groups, a) == position_of(groups, b),
    ensures
        a == b,
{
    lemma_position(groups, a);
    lemma_position(groups, b);
}

/// Index of the first entry of `groups` equal to `name`, or the length of
/// `groups` where there is none.
pub fn group_position(groups: &Vec<String>, name: &String) -> (r: usize)
    ensures
        r as nat == position_of(groups@, name@),
{
    let mut i: usize = 0;
    while i < groups.len()
        invariant
            i <= groups.len(),
            forall|j: int| 0 <= j < i ==> (#[trigger] groups@[j])@ != name@,
        decreases groups.len() - i,
    {
        if groups[i] == *name {
            proof {
                lemma_position_unique(groups@, name@, i as int);
            }
            return i;
        }
        i += 1;
    }
    proof {
        lemma_position_unique(groups@, name@, i as int);
    }
    i
}

/// Relies on itertools' `Itertools::sorted_by_key`: the same items, ordered
/// by the key, here the position of each name in `groups`.
#[verifier::external_body]
fn sort_by_position(names: Vec<String>, groups: &Vec<String>) -> (r: Vec<String>)
    ensures
        r@.to_multiset() == names@.to_multiset(),
        forall|a: int, b: int|
            0 <= a <= b < r@.len() ==> position_of(groups@, (#[trigger] r@[a])@) <= position_of(
                groups@,
                (#[trigger] r@[b])@,
            ),
{
    names.into_iter().sorted_by_key(|n| group_position(groups, n)).collect()
}

/// The commits of group `name`, in their order in `commits`.
pub fn collect_group(commits: &Vec<Commit>, name: &String) -> (r: Vec<Commit>)
    ensures
        r@ == bucket(commits@, name@),
{
    let mut r: Vec<Commit> = Vec::new();
    let mut k: usize = 0;
    while k < commits.len()
        invariant
            k <= commits.len(),
            r@ == bucket(commits@.subrange(0, k as int), name@),
        decreases commits.len() - k,
    {
        proof {
            reveal(Seq::filter);
            assert(commits@.subrange(0, k + 1).drop_last() =~= commits@.subrange(0, k as int));
        }
        let hit = match &commits[k].group {
            Some(g) => *g == *name,
            None => false,
        };
        if hit {
            r.push(commits[k].clone());
        }
        k += 1;
    }
    assert(commits@.subrange(0, commits@.len() as int) =~= commits@);
    r
}

fn contains_name(names: &Vec<String>, name: &String) -> (r: bool)
    ensures
        r == exists|p: int| 0 <= p < names@.len() && (#[trigger] names@[p])@ == name@,
{
    let mut i: usize = 0;
    while i < names.len()
        invariant
            i <= names.len(),
            forall|p: int| 0 <= p < i ==> (#[trigger] names@[p])@ != name@,
        decreases names.len() - i,
    {
        if names[i] == *name {
            return true;
        }
        i += 1;
    }
    false
}

/// No two names are equal.
spec fn distinct_names(names: Seq<String>) -> bool {
    forall|p: int, q: int| 0 <= p < q < names.len() ==> (#[trigger] names[p])@ != (#[trigger] names[q])@
}

/// Each name is listed, carried by some commit, and appears once.
#[verifier::opaque]
spec fn names_sound(commits: Seq<Commit>, groups: Seq<String>, names: Seq<String>) -> bool {
    &&& forall|p: int|
        #![trigger names[p]]
        0 <= p < names.len() ==> listed(groups, names[p]@) && exists|k: int|
            0 <= k < commits.len() && in_group(commits[k], names[p]@)
    &&& distinct_names(names)
}

/// The listed group of each of the first `n` commits is among the names.
#[verifier::opaque]
spec fn names_cover(commits: Seq<Commit>, groups: Seq<String>, names: Seq<String>, n: int) -> bool {
    forall|j: int|
        0 <= j < n && listed(groups, (#[trigger] commits[j]).group->0@) ==> exists|p: int|
            0 <= p < names.len() && (#[trigger] names[p])@ == commits[j].group->0@
}

proof fn lemma_names_step(
    commits: Seq<Commit>,
    groups: Seq<String>,
    names: Seq<String>,
    k: int,
    pushed: bool,
    next: Seq<String>,
)
    requires
        0 <= k < commits.len(),
        commits[k].group is Some,
        names_sound(commits, groups, names),
        names_cover(commits, groups, names, k),
        pushed ==> listed(groups, commits[k].group->0@) && next == names.push(
            commits[k].group->0,
        ) && forall|p: int| 0 <= p < names.len() ==> (#[trigger] names[p])@ != commits[k].group->0@,
        !pushed ==> next == names && (listed(groups, commits[k].group->0@) ==> exists|p: int|
            0 <= p < names.len() && (#[trigger] names[p])@ == commits[k].group->0@),
    ensures
        names_sound(commits, groups, next),
        names_cover(commits, groups, next, k + 1),
{
    reveal(names_sound);
    reveal(names_cover);
    let name = commits[k].group->0;
    if pushed {
        assert(in_group(commits[k], name@));
        assert(next[names.len() as int] == name);
        assert forall|p: int|
            #![trigger next[p]]
            0 <= p < next.len() implies listed(groups, next[p]@) && exists|j: int|
                0 <= j < commits.len() && in_group(commits[j], next[p]@) by {
            if p < names.len() {
                assert(next[p] == names[p]);
            }
        }
        assert forall|p: int, q: int| 0 <= p < q < next.len() implies (#[trigger] next[p])@ != (
        #[trigger] next[q])@ by {
            assert(next[p] == names[p]);
            if q < names.len() {
                assert(next[q] == names[q]);
            }
        }
        assert forall|j: int|
            0 <= j < k + 1 && listed(groups, (#[trigger] commits[j]).group->0@) implies exists|p: int|
            0 <= p < next.len() && (#[trigger] next[p])@ == commits[j].group->0@ by {
            if j < k {
                let p = choose|p: int|
                    0 <= p < names.len() && (#[trigger] names[p])@ == commits[j].group->0@;
                assert(next[p] == names[p]);
            } else {
                assert(next[names.len() as int]@ == commits[j].group->0@);
            }
        }
    }
}

/// Names of the listed groups that the commits carry, each once, in the
/// order of first appearance; fails on the first commit without a group.
fn listed_groups(commits: &Vec<Commit>, groups: &Vec<String>) -> (r: Result<Vec<String>, FilterError>)
    ensures
        match r {
            Ok(names) => {
                &&& all_grouped(commits@)
                &&& names_sound(commits@, groups@, names@)
                &&& names_cover(commits@, groups@, names@, commits@.len() as int)
            },
            Err(e) => e matches FilterError::UngroupedCommit(k) && k < commits@.len()
                && commits@[k as int].group is None && forall|j: int|
                0 <= j < k ==> (#[trigger] commits@[j]).group is Some,
        },
{
    let mut names: Vec<String> = Vec::new();
    let mut k: usize = 0;
    proof {
        reveal(names_sound);
        reveal(names_cover);
    }
    while k < commits.len()
        invariant
            k <= commits.len(),
            forall|j: int| 0 <= j < k ==> (#[trigger] commits@[j]).group is Some,
            names_sound(commits@, groups@, names@),
            names_cover(commits@, groups@, names@, k as int),
        decreases commits.len() - k,
    {
        let name = match &commits[k].group {
            Some(g) => g,
            None => {
                return Err(FilterError::UngroupedCommit(k));
            },
        };
        let ghost old_names = names@;
        let pos = group_position(groups, name);
        let pushed = pos < groups.len() && !contains_name(&names, name);
        if pushed {
            names.push(name.clone());
        }
        proof {
            lemma_names_step(commits@, groups@, old_names, k as int, pushed, names@);
        }
        k += 1;
    }
    Ok(names)
}

/// Every name of `sorted` is among `present`.
#[verifier::opaque]
spec fn all_in(sorted: Seq<String>, present: Seq<String>) -> bool {
    forall|a: int| 0 <= a < sorted.len() ==> present.contains(#[trigger] sorted[a])
}

/// The names are in ascending order of position in `groups`.
#[verifier::opaque]
spec fn sorted_by_position(groups: Seq<String>, sorted: Seq<String>) -> bool {
    forall|a: int, b: int|
        0 <= a <= b < sorted.len() ==> position_of(groups, (#[trigger] sorted[a])@) <= position_of(
            groups,
            (#[trigger] sorted[b])@,
        )
}

/// The sections are listed, in strict order of position, each non-empty and
/// equal to its group's commits.
#[verifier::opaque]
spec fn sections_ok(commits: Seq<Commit>, groups: Seq<String>, out: Seq<CommitGroup>) -> bool {
    &&& forall|i: int| 0 <= i < out.len() ==> listed(groups, (#[trigger] out[i]).group@)
    &&& forall|i: int, j: int|
        0 <= i < j < out.len() ==> position_of(groups, (#[trigger] out[i]).group@) < position_of(
            groups,
            (#[trigger] out[j]).group@,
        )
    &&& forall|i: int|
        0 <= i < out.len() ==> (#[trigger] out[i]).commits@ == bucket(commits, out[i].group@)
            && out[i].commits@.len() > 0
}

/// Each of the first `n` names has a section.
#[verifier::opaque]
spec fn sections_cover(out: Seq<CommitGroup>, sorted: Seq<String>, n: int) -> bool {
    forall|a: int|
        0 <= a < n ==> exists|o: int|
            0 <= o < out.len() && (#[trigger] out[o]).group@ == (#[trigger] sorted[a])@
}

proof fn lemma_sections_push(
    commits: Seq<Commit>,
    groups: Seq<String>,
    present: Seq<String>,
    sorted: Seq<String>,
    out: Seq<CommitGroup>,
    i: int,
    g: CommitGroup,
)
    requires
        0 <= i < sorted.len(),
        all_in(sorted, present),
        sorted_by_position(groups, sorted),
        names_sound(commits, groups, present),
        distinct_names(sorted),
        out.len() > 0 ==> i > 0 && out.last().group@ == sorted[i - 1]@,
        sections_ok(commits, groups, out),
        sections_cover(out, sorted, i),
        g.group@ == sorted[i]@,
        g.commits@ == bucket(commits, sorted[i]@),
    ensures
        sections_ok(commits, groups, out.push(g)),
        sections_cover(out.push(g), sorted, i + 1),
{
    reveal(all_in);
    reveal(sorted_by_position);
    reveal(names_sound);
    reveal(sections_ok);
    reveal(sections_cover);
    let name = sorted[i]@;
    let next = out.push(g);
    assert(present.contains(sorted[i]));
    let p = choose|p: int| 0 <= p < present.len() && present[p] == sorted[i];
    assert(listed(groups, present[p]@));
    let k = choose|k: int| 0 <= k < commits.len() && in_group(commits[k], present[p]@);
    commits.lemma_filter_contains(|c: Commit| in_group(c, name), k);
    assert(g.commits@.len() > 0);
    if out.len() > 0 {
        let last = out.last().group@;
        assert(sorted[i - 1]@ != sorted[i]@);
        assert(position_of(groups, sorted[i - 1]@) <= position_of(groups, sorted[i]@));
        if position_of(groups, last) == position_of(groups, name) {
            lemma_position_injective(groups, last, name);
        }
        assert(position_of(groups, last) < position_of(groups, name));
    }
    assert forall|o: int, q: int|
        0 <= o < q < next.len() implies position_of(groups, (#[trigger] next[o]).group@)
        < position_of(groups, (#[trigger] next[q]).group@) by {
        if q == out.len() && o < out.len() - 1 {
            assert(next[o] == out[o]);
            assert(out.last() == out[out.len() - 1]);
        }
    }
    assert forall|a: int| 0 <= a < i + 1 implies exists|o: int|
        0 <= o < next.len() && (#[trigger] next[o]).group@ == (#[trigger] sorted[a])@ by {
        if a < i {
            let o = choose|o: int| 0 <= o < out.len() && (#[trigger] out[o]).group@ == sorted[a]@;
            assert(next[o] == out[o]);
        } else {
            assert(next[out.len() as int].group@ == sorted[a]@);
        }
    }
}

proof fn lemma_sections_done(
    commits: Seq<Commit>,
    groups: Seq<String>,
    present: Seq<String>,
    sorted: Seq<String>,
    out: Seq<CommitGroup>,
)
    requires
        sorted.to_multiset() == present.to_multiset(),
        names_cover(commits, groups, present, commits.len() as int),
        sections_ok(commits, groups, out),
        sections_cover(out, sorted, sorted.len() as int),
    ensures
        is_grouping(commits, groups, out),
{
    reveal(names_cover);
    reveal(sections_ok);
    reveal(sections_cover);
    sorted.to_multiset_ensures();
    present.to_multiset_ensures();
    assert forall|k: int|
        0 <= k < commits.len() && (#[trigger] commits[k]).group is Some && listed(
            groups,
            commits[k].group->0@,
        ) implies exists|o: int| 0 <= o < out.len() && (#[trigger] out[o]).group@ == commits[k].group->0@ by {
        let p = choose|p: int| 0 <= p < present.len() && (#[trigger] present[p])@ == commits[k].group->0@;
        assert(present.contains(present[p]));
        assert(present.to_multiset().count(present[p]) > 0);
        assert(sorted.contains(present[p]));
        let a = choose|a: int| 0 <= a < sorted.len() && sorted[a] == present[p];
        assert(sorted[a]@ == commits[k].group->0@);
    }
}

proof fn lemma_sorted_in_present(sorted: Seq<String>, present: Seq<String>)
    requires
        sorted.to_multiset() == present.to_multiset(),
    ensures
        all_in(sorted, present),
{
    reveal(all_in);
    sorted.to_multiset_ensures();
    present.to_multiset_ensures();
    assert forall|a: int| 0 <= a < sorted.len() implies present.contains(#[trigger] sorted[a]) by {
        assert(sorted.contains(sorted[a]));
        assert(sorted.to_multiset().count(sorted[a]) > 0);
    }
}

proof fn lemma_count_at_least_two(s: Seq<String>, a: int, b: int)
    requires
        0 <= a < s.len(),
        0 <= b < s.len(),
        a != b,
        s[a] == s[b],
    ensures
        s.to_multiset().count(s[a]) >= 2,
{
    s.to_multiset_ensures();
    let t = s.remove(a);
    t.to_multiset_ensures();
    let c = if b < a { b } else { b - 1 };
    assert(t[c] == s[b]);
    assert(t.contains(s[a]));
    assert(t.to_multiset().count(s[a]) > 0);
}

proof fn lemma_count_at_most_one(s: Seq<String>, p: int)
    requires
        0 <= p < s.len(),
        distinct_names(s),
    ensures
        s.to_multiset().count(s[p]) <= 1,
{
    s.to_multiset_ensures();
    let t = s.remove(p);
    t.to_multiset_ensures();
    if t.contains(s[p]) {
        let c = choose|c: int| 0 <= c < t.len() && t[c] == s[p];
        if c < p {
            assert(s[c] == t[c]);
        } else {
            assert(s[c + 1] == t[c]);
        }
    }
    assert(t.to_multiset().count(s[p]) == 0);
}

proof fn lemma_sorted_distinct(sorted: Seq<String>, present: Seq<String>)
    requires
        sorted.to_multiset() == present.to_multiset(),
        all_in(sorted, present),
        distinct_names(present),
    ensures
        distinct_names(sorted),
{
    reveal(all_in);
    assert forall|a: int, b: int| 0 <= a < b < sorted.len() implies (#[trigger] sorted[a])@ != (
    #[trigger] sorted[b])@ by {
        if sorted[a]@ == sorted[b]@ {
            assert(present.contains(sorted[a]));
            assert(present.contains(sorted[b]));
            let p = choose|p: int| 0 <= p < present.len() && present[p] == sorted[a];
            let q = choose|q: int| 0 <= q < present.len() && present[q] == sorted[b];
            if p < q {
                assert(present[p]@ != present[q]@);
            } else if q < p {
                assert(present[q]@ != present[p]@);
            }
            lemma_count_at_least_two(sorted, a, b);
            lemma_count_at_most_one(present, p);
        }
    }
}

/// Groups `commits` by their group under the ordering list `groups`: only
/// listed groups are kept, sections follow the list's order, and each section
/// keeps its commits in input order. Fails on the first commit without a
/// group.
pub fn group_commits(commits: &Vec<Commit>, groups: &Vec<String>) -> (r: Result<Vec<CommitGroup>, FilterError>)
    ensures
        match r {
            Ok(out) => all_grouped(commits@) && is_grouping(commits@, groups@, out@),
            Err(e) => e matches FilterError::UngroupedCommit(k) && k < commits@.len()
                && commits@[k as int].group is None && forall|j: int|
                0 <= j < k ==> (#[trigger] commits@[j]).group is Some,
        },
{
    let names = match listed_groups(commits, groups) {
        Ok(names) => names,
        Err(e) => {
            return Err(e);
        },
    };
    let ghost present = names@;
    let sorted = sort_by_position(names, groups);
    proof {
        lemma_sorted_in_present(sorted@, present);
        reveal(names_sound);
        lemma_sorted_distinct(sorted@, present);
        reveal(sorted_by_position);
        reveal(sections_ok);
        reveal(sections_cover);
    }
    let mut out: Vec<CommitGroup> = Vec::new();
    let mut i: usize = 0;
    while i < sorted.len()
        invariant
            i <= sorted@.len(),
            all_in(sorted@, present),
            sorted_by_position(groups@, sorted@),
            names_sound(commits@, groups@, present),
            distinct_names(sorted@),
            out@.len() == i,
            out@.len() > 0 ==> out@.last().group@ == sorted@[i - 1]@,
            sections_ok(commits@, groups@, out@),
            sections_cover(out@, sorted@, i as int),
        decreases sorted@.len() - i,
    {
        let name = &sorted[i];
        let members = collect_group(commits, name);
        let g = CommitGroup { group: name.clone(), commits: members };
        proof {
            lemma_sections_push(commits@, groups@, present, sorted@, out@, i as int, g);
        }
        out.push(g);
        i += 1;
    }
    proof {
        lemma_sections_done(commits@, groups@, present, sorted@, out@);
    }
    Ok(out)
}

/// The grouping filter: the `groups` argument is required, then the commits
/// are grouped as `group_commits` does.
pub fn commit_groups(commits: &Vec<Commit>, groups: Option<&Vec<String>>) -> (r: Result<Vec<CommitGroup>, FilterError>)
    ensures
        groups is None ==> r == Err::<Vec<CommitGroup>, FilterError>(FilterError::MissingArgument),
        groups is Some ==> match r {
            Ok(out) => all_grouped(commits@) && is_grouping(commits@, groups->0@, out@),
            Err(e) => e matches FilterError::UngroupedCommit(k) && k < commits@.len()
                && commits@[k as int].group is None && forall|j: int|
                0 <= j < k ==> (#[trigger] commits@[j]).group is Some,
        },
{
    match groups {
        Some(g) => group_commits(commits, g),
        None => Err(FilterError::MissingArgument),
    }
}

/// Grouping is a stable partition: every section holds exactly the commits of
/// its group, in their input order, and a commit in a section carries that
/// section's group, which is listed, and comes from the input; so a commit
/// whose group is not in the ordering list appears in no section.
pub proof fn lemma_grouping_stable_partition(
    commits: Seq<Commit>,
    groups: Seq<String>,
    r: Seq<CommitGroup>,
    i: int,
    m: int,
)
    requires
        is_grouping(commits, groups, r),
        0 <= i < r.len(),
        0 <= m < r[i].commits@.len(),
    ensures
        r[i].commits@ == bucket(commits, r[i].group@),
        in_group(r[i].commits@[m], r[i].group@),
        listed(groups, r[i].commits@[m].group->0@),
        commits.contains(r[i].commits@[m]),
{
    let f = |c: Commit| in_group(c, r[i].group@);
    commits.lemma_filter_pred(f, m);
    assert(commits.filter(f).contains(commits.filter(f)[m]));
    commits.lemma_filter_contains_rev(f, commits.filter(f)[m]);
}

/// Without commits there are no sections.
pub proof fn lemma_no_commits_no_sections(groups: Seq<String>, r: Seq<CommitGroup>)
    requires
        is_grouping(Seq::empty(), groups, r),
    ensures
        r.len() == 0,
{
    reveal(Seq::filter);
    if r.len() > 0 {
        assert(bucket(Seq::empty(), r[0].group@).len() == 0);
    }
}

proof fn lemma_strictly_increasing_same_members(a: Seq<int>, b: Seq<int>)
    requires
        forall|i: int, j: int| 0 <= i < j < a.len() ==> a[i] < a[j],
        forall|i: int, j: int| 0 <= i < j < b.len() ==> b[i] < b[j],
        forall|i: int| 0 <= i < a.len() ==> b.contains(#[trigger] a[i]),
        forall|j: int| 0 <= j < b.len() ==> a.contains(#[trigger] b[j]),
    ensures
        a == b,
    decreases a.len(),
{
    if a.len() == 0 {
        if b.len() > 0 {
            assert(a.contains(b[0]));
        }
        assert(a =~= b);
    } else {
        assert(b.contains(a[0]));
        assert(b.len() > 0);
        assert(a.contains(b[0]));
        let i = choose|i: int| 0 <= i < a.len() && a[i] == b[0];
        let j = choose|j: int| 0 <= j < b.len() && b[j] == a[0];
        if i > 0 {
            assert(a[0] < a[i]);
        }
        if j > 0 {
            assert(b[0] < b[j]);
        }
        assert(a[0] == b[0]);
        let ra = a.drop_first();
        let rb = b.drop_first();
        assert forall|x: int| 0 <= x < ra.len() implies rb.contains(#[trigger] ra[x]) by {
            assert(a[x + 1] > a[0]);
            assert(b.contains(a[x + 1]));
            let y = choose|y: int| 0 <= y < b.len() && b[y] == a[x + 1];
            assert(y > 0);
            assert(rb[y - 1] == ra[x]);
        }
        assert forall|y: int| 0 <= y < rb.len() implies ra.contains(#[trigger] rb[y]) by {
            assert(b[y + 1] > b[0]);
            assert(a.contains(b[y + 1]));
            let x = choose|x: int| 0 <= x < a.len() && a[x] == b[y + 1];
            assert(x > 0);
            assert(ra[x - 1] == rb[y]);
        }
        lemma_strictly_increasing_same_members(ra, rb);
        assert(a =~= seq![a[0]] + ra);
        assert(b =~= seq![b[0]] + rb);
    }
}

/// Each section of `r1` has a section of the same name in `r2` when both
/// group the same commits, in any order.
proof fn lemma_section_names_shared(
    c1: Seq<Commit>,
    c2: Seq<Commit>,
    groups: Seq<String>,
    r1: Seq<CommitGroup>,
    r2: Seq<CommitGroup>,
    i: int,
)
    requires
        is_grouping(c1, groups, r1),
        is_grouping(c2, groups, r2),
        c1.to_multiset() == c2.to_multiset(),
        0 <= i < r1.len(),
    ensures
        exists|j: int| 0 <= j < r2.len() && (#[trigger] r2[j]).group@ == r1[i].group@,
{
    let name = r1[i].group@;
    let f = |c: Commit| in_group(c, name);
    let x = c1.filter(f)[0];
    c1.lemma_filter_pred(f, 0);
    assert(c1.filter(f).contains(x));
    c1.lemma_filter_contains_rev(f, x);
    c1.to_multiset_ensures();
    c2.to_multiset_ensures();
    assert(c1.to_multiset().count(x) > 0);
    assert(c2.contains(x));
    let k = choose|k: int| 0 <= k < c2.len() && c2[k] == x;
    assert(c2[k].group is Some && listed(groups, c2[k].group->0@));
}

/// The sections, by name and order, depend only on which commits there are
/// and on the ordering list, not on the order of the input commits.
pub proof fn lemma_section_order_independent_of_input_order(
    c1: Seq<Commit>,
    c2: Seq<Commit>,
    groups: Seq<String>,
    r1: Seq<CommitGroup>,
    r2: Seq<CommitGroup>,
)
    requires
        is_grouping(c1, groups, r1),
        is_grouping(c2, groups, r2),
        c1.to_multiset() == c2.to_multiset(),
    ensures
        r1.len() == r2.len(),
        forall|i: int| 0 <= i < r1.len() ==> (#[trigger] r1[i]).group@ == r2[i].group@,
        forall|i: int|
            0 <= i < r1.len() ==> (#[trigger] r1[i]).commits@.to_multiset()
                == r2[i].commits@.to_multiset(),
{
    let k1 = Seq::new(r1.len(), |i: int| position_of(groups, r1[i].group@) as int);
    let k2 = Seq::new(r2.len(), |i: int| position_of(groups, r2[i].group@) as int);
    assert forall|i: int| 0 <= i < k1.len() implies k2.contains(#[trigger] k1[i]) by {
        lemma_section_names_shared(c1, c2, groups, r1, r2, i);
        let j = choose|j: int| 0 <= j < r2.len() && (#[trigger] r2[j]).group@ == r1[i].group@;
        assert(k2[j] == k1[i]);
    }
    assert forall|j: int| 0 <= j < k2.len() implies k1.contains(#[trigger] k2[j]) by {
        lemma_section_names_shared(c2, c1, groups, r2, r1, j);
        let i = choose|i: int| 0 <= i < r1.len() && (#[trigger] r1[i]).group@ == r2[j].group@;
        assert(k1[i] == k2[j]);
    }
    lemma_strictly_increasing_same_members(k1, k2);
    assert forall|i: int| 0 <= i < r1.len() implies (#[trigger] r1[i]).group@ == r2[i].group@ by {
        assert(k1[i] == k2[i]);
        lemma_position_injective(groups, r1[i].group@, r2[i].group@);
    }
    assert forall|i: int| 0 <= i < r1.len() implies (#[trigger] r1[i]).commits@.to_multiset()
        == r2[i].commits@.to_multiset() by {
        lemma_same_named_sections_are_permutations(c1, c2, groups, r1[i], r2[i]);
    }
}

proof fn lemma_filter_multiset(s: Seq<Commit>, f: spec_fn(Commit) -> bool)
    ensures
        s.filter(f).to_multiset() == s.to_multiset().filter(f),
    decreases s.len(),
{
    reveal(Seq::filter);
    if s.len() == 0 {
        s.to_multiset_ensures();
        s.filter(f).to_multiset_ensures();
        assert(s.filter(f).to_multiset() =~= s.to_multiset().filter(f));
    } else {
        let d = s.drop_last();
        lemma_filter_multiset(d, f);
        d.to_multiset_ensures();
        d.filter(f).to_multiset_ensures();
        assert(d.push(s.last()) =~= s);
        assert(s.to_multiset() == d.to_multiset().insert(s.last()));
        assert(s.filter(f).to_multiset() =~= s.to_multiset().filter(f));
    }
}

/// Sections of the same name hold the same commits, each as often, when both
/// groupings are of the same commits in any order.
pub proof fn lemma_same_named_sections_are_permutations(
    c1: Seq<Commit>,
    c2: Seq<Commit>,
    groups: Seq<String>,
    s1: CommitGroup,
    s2: CommitGroup,
)
    requires
        c1.to_multiset() == c2.to_multiset(),
        s1.commits@ == bucket(c1, s1.group@),
        s2.commits@ == bucket(c2, s2.group@),
        s1.group@ == s2.group@,
    ensures
        s1.commits@.to_multiset() == s2.commits@.to_multiset(),
{
    let f = |c: Commit| in_group(c, s1.group@);
    lemma_filter_multiset(c1, f);
    lemma_filter_multiset(c2, f);
}

/// The commits of all sections, section after section.
pub open spec fn flatten(r: Seq<CommitGroup>) -> Seq<Commit>
    decreases r.len(),
{
    if r.len() == 0 {
        Seq::empty()
    } else {
        flatten(r.drop_last()) + r.last().commits@
    }
}

/// The commits whose group is in the ordering list, in input order.
pub open spec fn retained(commits: Seq<Commit>, groups: Seq<String>) -> Seq<Commit> {
    commits.filter(|c: Commit| c.group is Some && listed(groups, c.group->0@))
}

proof fn lemma_flatten_count(commits: Seq<Commit>, r: Seq<CommitGroup>, x: Commit)
    requires
        forall|i: int, j: int| 0 <= i < j < r.len() ==> (#[trigger] r[i]).group@ != (#[trigger] r[j]).group@,
        forall|i: int| 0 <= i < r.len() ==> (#[trigger] r[i]).commits@ == bucket(commits, r[i].group@),
    ensures
        flatten(r).to_multiset().count(x) == if exists|i: int|
            0 <= i < r.len() && in_group(x, (#[trigger] r[i]).group@) {
            commits.to_multiset().count(x)
        } else {
            0
        },
    decreases r.len(),
{
    if r.len() == 0 {
        Seq::<Commit>::empty().to_multiset_ensures();
    } else {
        let d = r.drop_last();
        assert forall|i: int, j: int| 0 <= i < j < d.len() implies (#[trigger] d[i]).group@ != (#[trigger] d[j]).group@ by {
            assert(d[i] == r[i] && d[j] == r[j]);
        }
        assert forall|i: int| 0 <= i < d.len() implies (#[trigger] d[i]).commits@ == bucket(commits, d[i].group@) by {
            assert(d[i] == r[i]);
        }
        lemma_flatten_count(commits, d, x);
        let last = r.last();
        assert(last == r[r.len() - 1]);
        let f = |c: Commit| in_group(c, last.group@);
        lemma_filter_multiset(commits, f);
        lemma_multiset_commutative(flatten(d), last.commits@);
        if in_group(x, last.group@) {
            if exists|i: int| 0 <= i < d.len() && in_group(x, (#[trigger] d[i]).group@) {
                let i = choose|i: int| 0 <= i < d.len() && in_group(x, (#[trigger] d[i]).group@);
                assert(d[i] == r[i]);
                assert(r[i].group@ != r[r.len() - 1].group@);
            }
            assert(exists|i: int| 0 <= i < r.len() && in_group(x, (#[trigger] r[i]).group@));
        } else {
            if exists|i: int| 0 <= i < r.len() && in_group(x, (#[trigger] r[i]).group@) {
                let i = choose|i: int| 0 <= i < r.len() && in_group(x, (#[trigger] r[i]).group@);
                assert(i < d.len());
                assert(d[i] == r[i]);
            }
            if exists|i: int| 0 <= i < d.len() && in_group(x, (#[trigger] d[i]).group@) {
                let i = choose|i: int| 0 <= i < d.len() && in_group(x, (#[trigger] d[i]).group@);
                assert(d[i] == r[i]);
            }
        }
    }
}

/// The sections together hold exactly the commits whose group is in the
/// ordering list, each as often as in the input.
pub proof fn lemma_sections_hold_retained_commits(
    commits: Seq<Commit>,
    groups: Seq<String>,
    r: Seq<CommitGroup>,
)
    requires
        is_grouping(commits, groups, r),
    ensures
        flatten(r).to_multiset() == retained(commits, groups).to_multiset(),
{
    let keep = |c: Commit| c.group is Some && listed(groups, c.group->0@);
    lemma_filter_multiset(commits, keep);
    assert forall|i: int, j: int| 0 <= i < j < r.len() implies (#[trigger] r[i]).group@ != (
    #[trigger] r[j]).group@ by {
        assert(position_of(groups, r[i].group@) < position_of(groups, r[j].group@));
    }
    assert forall|x: Commit| #[trigger] flatten(r).to_multiset().count(x) == retained(commits, groups).to_multiset().count(x) by {
        lemma_flatten_count(commits, r, x);
        commits.to_multiset_ensures();
        if keep(x) && commits.to_multiset().count(x) > 0 {
            assert(commits.contains(x));
            let k = choose|k: int| 0 <= k < commits.len() && commits[k] == x;
            assert(commits[k].group is Some && listed(groups, commits[k].group->0@));
            let i = choose|i: int| 0 <= i < r.len() && (#[trigger] r[i]).group@ == commits[k].group->0@;
            assert(in_group(x, r[i].group@));
        }
        if exists|i: int| 0 <= i < r.len() && in_group(x, (#[trigger] r[i]).group@) {
            let i = choose|i: int| 0 <= i < r.len() && in_group(x, (#[trigger] r[i]).group@);
            assert(listed(groups, r[i].group@));
        }
    }
    assert(flatten(r).to_multiset() =~= retained(commits, groups).to_multiset());
}

} // verus!
