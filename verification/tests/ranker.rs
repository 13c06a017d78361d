use ranker::error::ProjectsError;
use ranker::project::Project;
use ranker::ranker::{Ranker, DEFUALT_WINDOW_SIZE};

fn names(list: &[&str]) -> Vec<String> {
    list.iter().map(|s| s.to_string()).collect()
}

fn ranker_with(projects: &[&str]) -> Ranker {
    let list: Vec<Project> = projects.iter().map(|n| Project::empty(n.to_string())).collect();
    Ranker::new().load_projects_from(list)
}

#[test]
fn a_new_ranker_has_no_projects() {
    let mut r = Ranker::new();
    assert_eq!(r.get_num_projects(), 0);
    assert!(r.get_project_names().is_empty());
    assert!(matches!(r.get_selected_project(), Err(ProjectsError::NoProjects)));
    assert!(matches!(r.get_project_by_index(0), Err(ProjectsError::NotEnoughItems)));
    assert!(matches!(r.init(), Err(ProjectsError::NoProjects)));
    assert!(r.is_next_ready());
    assert!(matches!(r.get_next(), Err(ProjectsError::NoProjects)));
    assert!(!r.is_log_ready());
    assert_eq!(r.window_rated_items, 0);
    assert!(r.get_window_items().is_empty());
}

#[test]
fn ratings_in_a_full_window() {
    let r = Ranker::new();
    assert_eq!(DEFUALT_WINDOW_SIZE, 9);
    assert_eq!(r.get_num_ratings_in_window(), 36);
    let r = r.with_window_size(4);
    assert_eq!(r.get_num_ratings_in_window(), 6);
    let r = r.with_window_size(0);
    assert_eq!(r.get_num_ratings_in_window(), 0);
}

#[test]
fn projects_are_loaded_in_name_order() {
    let r = ranker_with(&["beta", "alpha", "gamma"]);
    assert_eq!(r.get_num_projects(), 3);
    assert_eq!(r.get_project_names(), names(&["alpha", "beta", "gamma"]));
    assert_eq!(r.try_find_project("beta"), Some(1));
    assert_eq!(r.try_find_project("delta"), None);
    assert_eq!(r.get_project_by_index(2).unwrap().name, "gamma");
    assert_eq!(r.get_selected_project().unwrap().name, "alpha");
    assert!(r.selection_fits());
}

#[test]
fn creating_a_project_selects_it() {
    let mut r = ranker_with(&["a", "b"]);
    assert!(matches!(r.create_project(Project::empty("a".to_string())), Err(ProjectsError::ProjectExists)));
    assert_eq!(r.get_num_projects(), 2);
    assert!(r.create_project(Project::empty("c".to_string())).is_ok());
    assert_eq!(r.get_num_projects(), 3);
    assert_eq!(r.try_find_project("c"), Some(2));
    assert_eq!(r.get_selected_project().unwrap().name, "c");
    assert_eq!(r.get_project().name, "c");
}

#[test]
fn creating_the_first_project() {
    let mut r = Ranker::new();
    assert!(r.create_project(Project::empty("first".to_string())).is_ok());
    assert_eq!(r.get_num_projects(), 1);
    assert_eq!(r.get_selected_project().unwrap().name, "first");
}

#[test]
fn renaming_answers_without_changing_anything() {
    let mut r = ranker_with(&["a", "b"]);
    assert!(r.rename_project("a", "a").is_ok());
    assert!(matches!(r.rename_project("a", "z"), Err(ProjectsError::ProjectExists)));
    assert!(matches!(r.rename_project("q", "z"), Err(ProjectsError::NoProjects)));
    assert_eq!(r.get_project_names(), names(&["a", "b"]));
}

#[test]
fn deleting_projects() {
    let mut r = ranker_with(&["a", "b", "c"]);
    assert_eq!(r.try_delete_project_by_name("zz").unwrap(), false);
    assert_eq!(r.get_num_projects(), 3);
    assert!(r.delete_project(1).is_ok());
    assert_eq!(r.get_project_names(), names(&["a", "c"]));
    assert_eq!(r.try_delete_project_by_name("c").unwrap(), true);
    assert_eq!(r.get_project_names(), names(&["a"]));
    assert_eq!(r.try_find_project("c"), None);
    assert!(r.delete_project(0).is_ok());
    assert_eq!(r.get_num_projects(), 0);
    assert!(matches!(r.get_selected_project(), Err(ProjectsError::NoProjects)));
}

#[test]
fn deleting_the_selected_last_project_selects_the_one_before() {
    let mut r = ranker_with(&["a", "b"]);
    assert!(r.select_project(1).is_ok());
    assert!(r.delete_project(1).is_ok());
    assert_eq!(r.get_selected_project().unwrap().name, "a");
}

#[test]
fn selecting_by_name() {
    let mut r = ranker_with(&["a", "b"]);
    assert_eq!(r.try_select_project_by_name("b").unwrap(), true);
    assert_eq!(r.get_selected_project().unwrap().name, "b");
    assert_eq!(r.try_select_project_by_name("x").unwrap(), false);
    assert_eq!(r.get_selected_project().unwrap().name, "b");
}

#[test]
fn a_project_with_one_item_has_no_pair() {
    let mut r = ranker_with(&["solo"]);
    assert!(r.sync_fits(&names(&["only"])));
    assert_eq!(r.sync_project(names(&["only"])).unwrap(), true);
    assert!(r.get_window_items().is_empty());
    assert!(r.is_next_ready());
    assert!(matches!(r.get_next(), Err(ProjectsError::NotEnoughItems)));
}

fn index_of(r: &Ranker, name: &str) -> usize {
    r.get_item_index(&name.to_string())
}

#[test]
fn a_whole_round_of_three_items() {
    let mut r = ranker_with(&["p"]);
    assert_eq!(r.sync_project(names(&["x", "y", "z"])).unwrap(), true);
    let mut window = r.get_window_items();
    window.sort();
    assert_eq!(window, names(&["x", "y", "z"]));
    assert_eq!(r.get_total_ratings(), 3);

    let mut seen: Vec<(String, String)> = Vec::new();
    let mut winners: Vec<(usize, usize)> = Vec::new();
    for turn in 0..3 {
        assert!(r.is_next_ready());
        let (a, b) = r.get_next().unwrap().unwrap();
        assert_ne!(a, b);
        assert!(!seen.contains(&(a.clone(), b.clone())) && !seen.contains(&(b.clone(), a.clone())));
        seen.push((a.clone(), b.clone()));
        assert!(r.is_log_ready());
        let a_won = turn % 2 == 0;
        r.log_result(a_won);
        let (ia, ib) = (index_of(&r, &a), index_of(&r, &b));
        winners.push(if a_won { (ia, ib) } else { (ib, ia) });
        assert_eq!(r.window_rated_items, turn + 1);
        assert_eq!(r.get_selected_project().unwrap().num_rated_items, turn + 1);
        assert!(turn + 1 <= r.get_total_ratings());
        assert!(r.get_selected_project().unwrap().bitmasks[ia].check_bit(ib as u16));
        assert!(r.get_selected_project().unwrap().bitmasks[ib].check_bit(ia as u16));
    }
    for i in 0..3 {
        assert_eq!(r.get_item_num_played_games(i), 2);
    }
    let p = r.get_selected_project().unwrap();
    let set_bits: usize = p.bitmasks.iter().map(|m| m.get_num_ones() as usize).sum();
    assert_eq!((set_bits - p.bitmasks.len()) / 2, p.num_rated_items);
    assert!(r.is_next_ready());
    assert_eq!(r.get_next().unwrap(), None);
    let steps = r.take_pending_ratings().unwrap();
    assert_eq!(steps.len(), 6);
    for s in &steps {
        assert_ne!(s.player, s.opponent);
        let won = winners.contains(&(s.player as usize, s.opponent as usize));
        assert_eq!(s.score, if won { 1 } else { 0 });
    }
    assert!(!steps[0].player_updated);
    assert!(steps[5].player_updated && steps[5].opponent_updated);
    assert!(r.take_pending_ratings().is_none());
    let p = r.get_selected_project().unwrap();
    for row in &p.results {
        assert_eq!(row.get_num_ones(), 0);
    }
}

#[test]
fn ratings_are_set_per_item() {
    let mut r = ranker_with(&["p"]);
    assert_eq!(r.sync_project(names(&["x", "y"])).unwrap(), true);
    let i = index_of(&r, "y");
    r.set_rating(i, 1016.0f32.to_bits());
    assert_eq!(r.get_selected_project().unwrap().items[i].1, 1016.0f32.to_bits());
    assert_eq!(r.get_selected_project().unwrap().items[i].0, "y");
}

#[test]
fn a_finished_project_starts_over_when_selected() {
    let mut r = ranker_with(&["p"]);
    assert_eq!(r.sync_project(names(&["x", "y"])).unwrap(), true);
    let (a, b) = r.get_next().unwrap().unwrap();
    assert_ne!(a, b);
    r.log_result(true);
    assert_eq!(r.get_next().unwrap(), None);
    assert_eq!(r.take_pending_ratings().unwrap().len(), 2);
    assert!(r.select_project(0).is_ok());
    let p = r.get_selected_project().unwrap();
    assert_eq!(p.num_rated_items, 0);
    assert!(!p.bitmasks[0].check_bit(1));
    assert_eq!(r.get_window_items().len(), 2);
    assert!(r.get_next().unwrap().is_some());
}

#[test]
fn project_names_must_be_new_and_not_empty() {
    let r = ranker_with(&["a", "b"]);
    assert!(r.accepts_project_name("c", None));
    assert!(!r.accepts_project_name("a", None));
    assert!(!r.accepts_project_name("", None));
    assert!(r.accepts_project_name("a", Some(0)));
    assert!(!r.accepts_project_name("b", Some(0)));
    assert!(r.accepts_project_name("z", Some(1)));
    assert!(!r.accepts_project_name("", Some(1)));
}
