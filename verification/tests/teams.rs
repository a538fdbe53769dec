use pr_timeline::teams::Team;
use pr_timeline::teams::TeamIndex;
use pr_timeline::teams::users_teams;

fn team(name: &str, members: &[&str]) -> Team {
    Team { name: name.to_owned(), members: members.iter().map(|m| (*m).to_owned()).collect() }
}

fn strings(items: &[&str]) -> Vec<String> {
    items.iter().map(|s| (*s).to_owned()).collect()
}

#[test]
fn lookup_resolves_member_to_team() {
    let roster = vec![team("teamA", &["alice"]), team("teamB", &["bob"])];
    let index = TeamIndex::build(&roster);
    assert_eq!(index.lookup("alice"), strings(&["teamA"]));
    assert_eq!(index.lookup("bob"), strings(&["teamB"]));
}

#[test]
fn member_of_several_teams_accumulates_all() {
    let roster = vec![
        team("platform", &["alice", "bob"]),
        team("web", &["alice"]),
        team("ops", &["carol", "alice"]),
    ];
    let index = TeamIndex::build(&roster);
    assert_eq!(index.lookup("alice"), strings(&["ops", "platform", "web"]));
    assert_eq!(index.lookup("bob"), strings(&["platform"]));
}

#[test]
fn absent_login_resolves_to_empty_set() {
    let roster = vec![team("teamA", &["alice"]), team("teamB", &["bob"])];
    let index = TeamIndex::build(&roster);
    assert_eq!(index.lookup("mallory"), Vec::<String>::new());
}

#[test]
fn lookup_on_empty_roster_is_empty() {
    let index = TeamIndex::build(&Vec::new());
    assert_eq!(index.lookup("alice"), Vec::<String>::new());
}

#[test]
fn lookup_output_is_sorted_and_deduplicated() {
    let roster = vec![
        team("zeta", &["alice"]),
        team("alpha", &["alice"]),
        team("zeta", &["alice"]),
        team("mid", &["alice"]),
    ];
    let index = TeamIndex::build(&roster);
    assert_eq!(index.lookup("alice"), strings(&["alpha", "mid", "zeta"]));
}

#[test]
fn users_teams_unions_over_logins() {
    let roster = vec![
        team("platform", &["alice"]),
        team("web", &["bob"]),
        team("ops", &["carol"]),
    ];
    let index = TeamIndex::build(&roster);
    let users = strings(&["alice", "carol"]);
    assert_eq!(users_teams(&users, &index), strings(&["ops", "platform"]));
}

#[test]
fn users_teams_is_order_and_duplicate_insensitive() {
    let roster = vec![team("teamA", &["a"]), team("teamB", &["b"])];
    let index = TeamIndex::build(&roster);
    let with_dup = strings(&["a", "b", "a"]);
    let reordered = strings(&["b", "a"]);
    assert_eq!(users_teams(&with_dup, &index), users_teams(&reordered, &index));
    assert_eq!(users_teams(&with_dup, &index), strings(&["teamA", "teamB"]));
}

#[test]
fn users_teams_of_no_logins_is_empty() {
    let roster = vec![team("teamA", &["alice"])];
    let index = TeamIndex::build(&roster);
    assert_eq!(users_teams(&Vec::new(), &index), Vec::<String>::new());
}
