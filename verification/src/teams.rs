//! Team roster and the reverse index from a member login to the teams that
//! list it.
use vstd::prelude::*;

use crate::order::lemma_strictly_sorted_unique;
use crate::order::insert_sorted;
use crate::order::seq_views;
use crate::order::str_eq;
use crate::order::strictly_sorted;

verus! {

/// One team of the roster: its name and its member logins.
pub struct Team {
    pub name: String,
    pub members: Vec<String>,
}

/// Whether a team named `team` lists `login` somewhere in the roster.
pub open spec fn roster_has(roster: Seq<Team>, login: Seq<char>, team: Seq<char>) -> bool {
    exists|i: int, j: int|
        0 <= i < roster.len() && 0 <= j < roster[i].members@.len()
            && roster[i].members@[j]@ == login && roster[i].name@ == team
}

/// All team names that list `login` in the roster.
pub open spec fn roster_teams(roster: Seq<Team>, login: Seq<char>) -> Set<Seq<char>> {
    Set::new(|t: Seq<char>| roster_has(roster, login, t))
}

struct IndexEntry {
    login: String,
    teams: Vec<String>,
}

/// Reverse mapping from a member login to the names of the teams that list
/// it. Built once from a roster; immutable afterwards.
pub struct TeamIndex {
    entries: Vec<IndexEntry>,
}

impl TeamIndex {
    /// A login/team pair recorded in the index.
    pub closed spec fn contains_pair(self, login: Seq<char>, team: Seq<char>) -> bool {
        exists|i: int, j: int|
            0 <= i < self.entries@.len() && 0 <= j < self.entries@[i].teams@.len()
                && self.entries@[i].login@ == login && self.entries@[i].teams@[j]@ == team
    }

    /// The set of team names the index resolves `login` to.
    pub open spec fn teams_of(self, login: Seq<char>) -> Set<Seq<char>> {
        Set::new(|t: Seq<char>| self.contains_pair(login, t))
    }

    /// The set of team names the index resolves a collection of logins to.
    pub open spec fn teams_of_all(self, logins: Seq<Seq<char>>) -> Set<Seq<char>> {
        Set::new(
            |t: Seq<char>|
                exists|i: int| 0 <= i < logins.len() && self.contains_pair(logins[i], t),
        )
    }

    /// Each login owns at most one entry.
    pub closed spec fn wf(self) -> bool {
        forall|p: int, q: int|
            0 <= p < q < self.entries@.len()
                ==> #[trigger] self.entries@[p].login@ != #[trigger] self.entries@[q].login@
    }
}

fn find_entry(entries: &Vec<IndexEntry>, login: &str) -> (r: Option<usize>)
    ensures
        match r {
            Some(k) => k < entries@.len() && entries@[k as int].login@ == login@,
            None => forall|p: int|
                0 <= p < entries@.len() ==> #[trigger] entries@[p].login@ != login@,
        },
{
    let mut k: usize = 0;
    while k < entries.len()
        invariant
            k <= entries@.len(),
            forall|p: int| 0 <= p < k ==> #[trigger] entries@[p].login@ != login@,
        decreases entries@.len() - k,
    {
        if str_eq(entries[k].login.as_str(), login) {
            return Some(k);
        }
        k += 1;
    }
    None
}

/// Records that `login` belongs to the team named `team_name`.
fn add_member(idx: &mut TeamIndex, login: &String, team_name: &String)
    requires
        old(idx).wf(),
    ensures
        final(idx).wf(),
        forall|l: Seq<char>, t: Seq<char>| #[trigger]
            final(idx).contains_pair(l, t) <==> old(idx).contains_pair(l, t) || (l == login@
                && t == team_name@),
{
    let ghost pre = idx.entries@;
    match find_entry(&idx.entries, login.as_str()) {
        Some(k) => {
            idx.entries[k].teams.push(team_name.clone());
            proof {
                let post = idx.entries@;
                assert(post[k as int].teams@ == pre[k as int].teams@.push(*team_name));
                assert forall|l: Seq<char>, t: Seq<char>| #[trigger]
                    final(idx).contains_pair(l, t) implies old(idx).contains_pair(l, t) || (l
                    == login@ && t == team_name@) by {
                    let (i, j) = choose|i: int, j: int|
                        0 <= i < post.len() && 0 <= j < post[i].teams@.len()
                            && post[i].login@ == l && post[i].teams@[j]@ == t;
                    if i != k {
                        assert(old(idx).contains_pair(l, t));
                    } else if j < pre[k as int].teams@.len() {
                        assert(pre[i].teams@[j]@ == t);
                        assert(old(idx).contains_pair(l, t));
                    }
                }
                assert forall|l: Seq<char>, t: Seq<char>|
                    old(idx).contains_pair(l, t) || (l == login@ && t == team_name@)
                    implies #[trigger] final(idx).contains_pair(l, t) by {
                    if old(idx).contains_pair(l, t) {
                        let (i, j) = choose|i: int, j: int|
                            0 <= i < pre.len() && 0 <= j < pre[i].teams@.len()
                                && pre[i].login@ == l && pre[i].teams@[j]@ == t;
                        assert(post[i].teams@[j]@ == t);
                    } else {
                        let j = pre[k as int].teams@.len() as int;
                        assert(post[k as int].teams@[j]@ == t);
                    }
                }
            }
        },
        None => {
            let mut ts: Vec<String> = Vec::new();
            ts.push(team_name.clone());
            idx.entries.push(IndexEntry { login: login.clone(), teams: ts });
            proof {
                let post = idx.entries@;
                let n = pre.len() as int;
                assert forall|l: Seq<char>, t: Seq<char>| #[trigger]
                    final(idx).contains_pair(l, t) implies old(idx).contains_pair(l, t) || (l
                    == login@ && t == team_name@) by {
                    let (i, j) = choose|i: int, j: int|
                        0 <= i < post.len() && 0 <= j < post[i].teams@.len()
                            && post[i].login@ == l && post[i].teams@[j]@ == t;
                    if i < n {
                        assert(old(idx).contains_pair(l, t));
                    }
                }
                assert forall|l: Seq<char>, t: Seq<char>|
                    old(idx).contains_pair(l, t) || (l == login@ && t == team_name@)
                    implies #[trigger] final(idx).contains_pair(l, t) by {
                    if old(idx).contains_pair(l, t) {
                        let (i, j) = choose|i: int, j: int|
                            0 <= i < pre.len() && 0 <= j < pre[i].teams@.len()
                                && pre[i].login@ == l && pre[i].teams@[j]@ == t;
                        assert(post[i].teams@[j]@ == t);
                    } else {
                        assert(post[n].teams@[0]@ == t);
                    }
                }
            }
        },
    }
}

/// All login/team pairs among the first `ti` teams of the roster, together
/// with the first `mj` members of team `ti` itself.
spec fn prefix_has(roster: Seq<Team>, ti: int, mj: int, login: Seq<char>, team: Seq<char>) -> bool {
    exists|i: int, j: int|
        0 <= i < roster.len() && 0 <= j < roster[i].members@.len() && (i < ti || (i == ti && j
            < mj)) && roster[i].members@[j]@ == login && roster[i].name@ == team
}

impl TeamIndex {
    /// Builds the reverse index: every member of every team gains that team's
    /// name in its resolved set, and a member listed by several teams
    /// accumulates all of them.
    pub fn build(roster: &Vec<Team>) -> (idx: TeamIndex)
        ensures
            idx.wf(),
            forall|login: Seq<char>, team: Seq<char>| #[trigger]
                idx.contains_pair(login, team) <==> roster_has(roster@, login, team),
    {
        let mut idx = TeamIndex { entries: Vec::new() };
        assert forall|l: Seq<char>, t: Seq<char>| !#[trigger] idx.contains_pair(l, t) by {}
        let mut ti: usize = 0;
        while ti < roster.len()
            invariant
                ti <= roster@.len(),
                idx.wf(),
                forall|l: Seq<char>, t: Seq<char>| #[trigger]
                    idx.contains_pair(l, t) <==> prefix_has(roster@, ti as int, 0, l, t),
            decreases roster@.len() - ti,
        {
            let n_members: usize = roster[ti].members.len();
            let mut mj: usize = 0;
            proof {
                assert forall|l: Seq<char>, t: Seq<char>|
                    prefix_has(roster@, ti as int, 0, l, t) == prefix_has(
                        roster@,
                        ti as int,
                        mj as int,
                        l,
                        t,
                    ) by {}
            }
            while mj < n_members
                invariant
                    ti < roster@.len(),
                    mj <= n_members,
                    n_members == roster@[ti as int].members@.len(),
                    idx.wf(),
                    forall|l: Seq<char>, t: Seq<char>| #[trigger]
                        idx.contains_pair(l, t) <==> prefix_has(
                            roster@,
                            ti as int,
                            mj as int,
                            l,
                            t,
                        ),
                decreases n_members - mj,
            {
                add_member(&mut idx, &roster[ti].members[mj], &roster[ti].name);
                proof {
                    let login = roster@[ti as int].members@[mj as int]@;
                    let team = roster@[ti as int].name@;
                    assert forall|l: Seq<char>, t: Seq<char>| #[trigger]
                        prefix_has(roster@, ti as int, mj + 1, l, t) implies prefix_has(
                        roster@,
                        ti as int,
                        mj as int,
                        l,
                        t,
                    ) || (l == login && t == team) by {
                        let (i, j) = choose|i: int, j: int|
                            0 <= i < roster@.len() && 0 <= j < roster@[i].members@.len() && (i
                                < ti || (i == ti && j < mj + 1)) && roster@[i].members@[j]@ == l
                                && roster@[i].name@ == t;
                        if !(i == ti && j == mj) {
                            assert(prefix_has(roster@, ti as int, mj as int, l, t));
                        }
                    }
                    assert forall|l: Seq<char>, t: Seq<char>|
                        prefix_has(roster@, ti as int, mj as int, l, t) || (l == login && t
                            == team) implies #[trigger] prefix_has(
                        roster@,
                        ti as int,
                        mj + 1,
                        l,
                        t,
                    ) by {
                        if prefix_has(roster@, ti as int, mj as int, l, t) {
                            let (i, j) = choose|i: int, j: int|
                                0 <= i < roster@.len() && 0 <= j < roster@[i].members@.len() && (
                                i < ti || (i == ti && j < mj)) && roster@[i].members@[j]@ == l
                                    && roster@[i].name@ == t;
                            assert(0 <= i < roster@.len() && 0 <= j < roster@[i].members@.len()
                                && (i < ti || (i == ti && j < mj + 1))
                                && roster@[i].members@[j]@ == l && roster@[i].name@ == t);
                        } else {
                            let i = ti as int;
                            let j = mj as int;
                            assert(0 <= i < roster@.len() && 0 <= j < roster@[i].members@.len()
                                && (i < ti || (i == ti && j < mj + 1))
                                && roster@[i].members@[j]@ == l && roster@[i].name@ == t);
                        }
                    }
                }
                mj += 1;
            }
            proof {
                assert forall|l: Seq<char>, t: Seq<char>| #[trigger]
                    prefix_has(roster@, ti + 1, 0, l, t) == prefix_has(
                        roster@,
                        ti as int,
                        n_members as int,
                        l,
                        t,
                    ) by {
                    if prefix_has(roster@, ti + 1, 0, l, t) {
                        let (i, j) = choose|i: int, j: int|
                            0 <= i < roster@.len() && 0 <= j < roster@[i].members@.len() && (i
                                < ti + 1 || (i == ti + 1 && j < 0)) && roster@[i].members@[j]@
                                == l && roster@[i].name@ == t;
                        assert(i < ti || (i == ti && j < n_members));
                        assert(prefix_has(roster@, ti as int, n_members as int, l, t));
                    }
                    if prefix_has(roster@, ti as int, n_members as int, l, t) {
                        let (i, j) = choose|i: int, j: int|
                            0 <= i < roster@.len() && 0 <= j < roster@[i].members@.len() && (i
                                < ti || (i == ti && j < n_members)) && roster@[i].members@[j]@
                                == l && roster@[i].name@ == t;
                        assert(i < ti + 1);
                        assert(prefix_has(roster@, ti + 1, 0, l, t));
                    }
                }
            }
            ti += 1;
        }
        proof {
            assert forall|l: Seq<char>, t: Seq<char>| #[trigger]
                roster_has(roster@, l, t) == prefix_has(roster@, roster@.len() as int, 0, l, t)
                by {}
        }
        idx
    }

    /// Resolves a login to the sorted list of its teams' names. An unknown
    /// login yields the empty list, never an error.
    pub fn lookup(&self, login: &str) -> (r: Vec<String>)
        requires
            self.wf(),
        ensures
            strictly_sorted(seq_views(r@)),
            seq_views(r@).to_set() == self.teams_of(login@),
    {
        let mut out: Vec<String> = Vec::new();
        match find_entry(&self.entries, login) {
            None => {
                proof {
                    assert forall|t: Seq<char>| !#[trigger] self.contains_pair(login@, t) by {
                        if self.contains_pair(login@, t) {
                            let (i, j) = choose|i: int, j: int|
                                0 <= i < self.entries@.len() && 0 <= j
                                    < self.entries@[i].teams@.len() && self.entries@[i].login@
                                    == login@ && self.entries@[i].teams@[j]@ == t;
                        }
                    }
                    assert(seq_views(out@).to_set() =~= self.teams_of(login@));
                }
                out
            },
            Some(k) => {
                let teams = &self.entries[k].teams;
                let mut ti: usize = 0;
                while ti < teams.len()
                    invariant
                        ti <= teams@.len(),
                        strictly_sorted(seq_views(out@)),
                        seq_views(out@).to_set() == seq_views(teams@).take(ti as int).to_set(),
                    decreases teams@.len() - ti,
                {
                    insert_sorted(&mut out, teams[ti].clone());
                    proof {
                        assert(seq_views(teams@).take(ti + 1) =~= seq_views(teams@).take(
                            ti as int,
                        ).push(teams@[ti as int]@));
                        lemma_to_set_push(seq_views(teams@).take(ti as int), teams@[ti as int]@);
                    }
                    ti += 1;
                }
                proof {
                    assert(seq_views(teams@).take(teams@.len() as int) =~= seq_views(teams@));
                    assert(seq_views(out@).to_set() =~= self.teams_of(login@)) by {
                        assert forall|t: Seq<char>|
                            seq_views(teams@).to_set().contains(t) implies #[trigger]
                        self.contains_pair(login@, t) by {
                            let j = choose|j: int|
                                0 <= j < teams@.len() && seq_views(teams@)[j] == t;
                            assert(self.entries@[k as int].teams@[j]@ == t);
                        }
                        assert forall|t: Seq<char>| #[trigger]
                            self.contains_pair(login@, t) implies seq_views(
                            teams@,
                        ).to_set().contains(t) by {
                            let (i, j) = choose|i: int, j: int|
                                0 <= i < self.entries@.len() && 0 <= j
                                    < self.entries@[i].teams@.len() && self.entries@[i].login@
                                    == login@ && self.entries@[i].teams@[j]@ == t;
                            assert(i == k);
                            assert(seq_views(teams@)[j] == t);
                        }
                    }
                }
                out
            },
        }
    }
}

/// The push of one more string onto a sequence adds exactly that string to
/// its set.
proof fn lemma_to_set_push(s: Seq<Seq<char>>, x: Seq<char>)
    ensures
        s.push(x).to_set() =~= s.to_set().insert(x),
{
    assert forall|t: Seq<char>| s.push(x).to_set().contains(t) implies s.to_set().insert(
        x,
    ).contains(t) by {
        let j = choose|j: int| 0 <= j < s.push(x).len() && s.push(x)[j] == t;
        if j < s.len() {
            assert(s[j] == t);
        }
    }
    assert forall|t: Seq<char>| s.to_set().insert(x).contains(t) implies s.push(
        x,
    ).to_set().contains(t) by {
        if t == x {
            assert(s.push(x)[s.len() as int] == t);
        } else {
            let j = choose|j: int| 0 <= j < s.len() && s[j] == t;
            assert(s.push(x)[j] == t);
        }
    }
}

/// Union of the team sets of every given login, deduplicated and returned in
/// a single canonical sorted order.
pub fn users_teams(users: &Vec<String>, index: &TeamIndex) -> (r: Vec<String>)
    requires
        index.wf(),
    ensures
        strictly_sorted(seq_views(r@)),
        seq_views(r@).to_set() == index.teams_of_all(seq_views(users@)),
{
    let mut out: Vec<String> = Vec::new();
    let mut ui: usize = 0;
    proof {
        assert(seq_views(out@).to_set() =~= index.teams_of_all(seq_views(users@).take(0)));
    }
    while ui < users.len()
        invariant
            index.wf(),
            ui <= users@.len(),
            strictly_sorted(seq_views(out@)),
            seq_views(out@).to_set() == index.teams_of_all(seq_views(users@).take(ui as int)),
        decreases users@.len() - ui,
    {
        let teams = index.lookup(users[ui].as_str());
        let ghost done = index.teams_of_all(seq_views(users@).take(ui as int));
        proof {
            assert(seq_views(out@).to_set() =~= done.union(
                seq_views(teams@).take(0).to_set(),
            ));
        }
        let mut ti: usize = 0;
        while ti < teams.len()
            invariant
                index.wf(),
                ui < users@.len(),
                ti <= teams@.len(),
                strictly_sorted(seq_views(out@)),
                seq_views(teams@).to_set() == index.teams_of(users@[ui as int]@),
                done == index.teams_of_all(seq_views(users@).take(ui as int)),
                seq_views(out@).to_set() == done.union(
                    seq_views(teams@).take(ti as int).to_set(),
                ),
            decreases teams@.len() - ti,
        {
            insert_sorted(&mut out, teams[ti].clone());
            proof {
                assert(seq_views(teams@).take(ti + 1) =~= seq_views(teams@).take(ti as int).push(
                    teams@[ti as int]@,
                ));
                lemma_to_set_push(seq_views(teams@).take(ti as int), teams@[ti as int]@);
                assert(done.union(seq_views(teams@).take(ti as int).to_set()).insert(
                    teams@[ti as int]@,
                ) =~= done.union(seq_views(teams@).take(ti + 1).to_set()));
            }
            ti += 1;
        }
        proof {
            assert(seq_views(teams@).take(teams@.len() as int) =~= seq_views(teams@));
            assert(done.union(seq_views(teams@).to_set()) =~= index.teams_of_all(
                seq_views(users@).take(ui + 1),
            )) by {
                let next = seq_views(users@).take(ui + 1);
                assert forall|t: Seq<char>|
                    done.union(seq_views(teams@).to_set()).contains(t) implies index.teams_of_all(
                    next,
                ).contains(t) by {
                    if done.contains(t) {
                        let i = choose|i: int|
                            0 <= i < seq_views(users@).take(ui as int).len()
                                && index.contains_pair(
                                seq_views(users@).take(ui as int)[i],
                                t,
                            );
                        assert(next[i] == seq_views(users@).take(ui as int)[i]);
                        assert(index.contains_pair(next[i], t));
                    } else {
                        assert(index.contains_pair(users@[ui as int]@, t));
                        assert(next[ui as int] == users@[ui as int]@);
                        assert(index.contains_pair(next[ui as int], t));
                    }
                }
                assert forall|t: Seq<char>| index.teams_of_all(next).contains(t) implies done.union(
                    seq_views(teams@).to_set(),
                ).contains(t) by {
                    let i = choose|i: int|
                        0 <= i < next.len() && index.contains_pair(next[i], t);
                    if i < ui {
                        assert(seq_views(users@).take(ui as int)[i] == next[i]);
                        assert(done.contains(t));
                    } else {
                        assert(next[i] == users@[ui as int]@);
                        assert(index.teams_of(users@[ui as int]@).contains(t));
                    }
                }
            }
        }
        ui += 1;
    }
    proof {
        assert(seq_views(users@).take(users@.len() as int) =~= seq_views(users@));
    }
    out
}

/// A login that no team of a roster lists resolves, through an index built
/// from that roster, to the empty list.
pub proof fn lemma_absent_login_lookup_empty(
    roster: Seq<Team>,
    index: TeamIndex,
    login: Seq<char>,
    r: Seq<Seq<char>>,
)
    requires
        forall|l: Seq<char>, t: Seq<char>| #[trigger]
            index.contains_pair(l, t) <==> roster_has(roster, l, t),
        r.to_set() == index.teams_of(login),
        forall|i: int, j: int|
            0 <= i < roster.len() && 0 <= j < roster[i].members@.len() ==> #[trigger]
                roster[i].members@[j]@ != login,
    ensures
        r == Seq::<Seq<char>>::empty(),
{
    if r.len() > 0 {
        assert(r.to_set().contains(r[0]));
        assert(index.contains_pair(login, r[0]));
        let (i, j) = choose|i: int, j: int|
            0 <= i < roster.len() && 0 <= j < roster[i].members@.len()
                && roster[i].members@[j]@ == login && roster[i].name@ == r[0];
    }
    assert(r =~= Seq::<Seq<char>>::empty());
}

/// `users_teams` is order-independent and duplicate-insensitive: two results
/// computed for login lists that name the same set of logins are the same
/// list.
pub proof fn lemma_users_teams_determined(
    index: TeamIndex,
    users1: Seq<Seq<char>>,
    users2: Seq<Seq<char>>,
    r1: Seq<Seq<char>>,
    r2: Seq<Seq<char>>,
)
    requires
        users1.to_set() == users2.to_set(),
        strictly_sorted(r1),
        r1.to_set() == index.teams_of_all(users1),
        strictly_sorted(r2),
        r2.to_set() == index.teams_of_all(users2),
    ensures
        r1 == r2,
{
    assert(index.teams_of_all(users1) =~= index.teams_of_all(users2)) by {
        assert forall|t: Seq<char>|
            index.teams_of_all(users1).contains(t) implies index.teams_of_all(users2).contains(
            t,
        ) by {
            let i = choose|i: int| 0 <= i < users1.len() && index.contains_pair(users1[i], t);
            assert(users1.to_set().contains(users1[i]));
            assert(users2.to_set().contains(users1[i]));
            let j = choose|j: int| 0 <= j < users2.len() && users2[j] == users1[i];
            assert(index.contains_pair(users2[j], t));
        }
        assert forall|t: Seq<char>|
            index.teams_of_all(users2).contains(t) implies index.teams_of_all(users1).contains(
            t,
        ) by {
            let i = choose|i: int| 0 <= i < users2.len() && index.contains_pair(users2[i], t);
            assert(users2.to_set().contains(users2[i]));
            assert(users1.to_set().contains(users2[i]));
            let j = choose|j: int| 0 <= j < users1.len() && users1[j] == users2[i];
            assert(index.contains_pair(users1[j], t));
        }
    }
    lemma_strictly_sorted_unique(r1, r2);
}

} // verus!
