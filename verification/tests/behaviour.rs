use task_scheduler::{
    Configuration, ConfigurationManager, ConstraintManager, NameMap, ResourceIntervals, ResourceManager,
    StatusRelationChart, Task, TaskList,
};

fn task(
    task_id: &str,
    earliest_start_interval: u32,
    resource_needs: Option<NameMap<u16>>,
    configuration: Option<Configuration>,
    du: u32,
) -> Task {
    Task {
        task_id: task_id.to_string(),
        priority: 1,
        earliest_start_interval,
        predecessors: None,
        resource_needs,
        configuration,
        du,
        scheduled: false,
        start_interval: None,
        complete_interval: None,
    }
}

fn needs(entries: &[(&str, u16)]) -> NameMap<u16> {
    let mut m = NameMap::new();
    for (name, quantity) in entries {
        m.insert(name.to_string(), *quantity);
    }
    m
}

fn manager(max_interval: u32, resources: &[(&str, u32, Vec<u16>)]) -> ResourceManager {
    let mut m = ResourceManager { calendar: NameMap::new(), max_interval };
    for (name, first, intervals) in resources {
        m.calendar.insert(
            name.to_string(),
            ResourceIntervals { first_available_interval: *first, intervals: intervals.clone() },
        );
    }
    m
}

fn intervals_of(m: &ResourceManager, name: &str) -> Vec<u16> {
    m.calendar.get(&name.to_string()).unwrap().intervals.clone()
}

fn config(statuses: &[&str]) -> Configuration {
    Configuration { statuses: statuses.iter().map(|s| s.to_string()).collect() }
}

fn hot_cold_manager(n: usize) -> ConfigurationManager {
    let mut chart = StatusRelationChart::new();
    chart.insert_relation("Hot", "Cold", false);
    let mut m = ConfigurationManager { config_intervals: Vec::new(), status_relations: chart };
    for _ in 0..n {
        m.config_intervals.push(Configuration { statuses: Vec::new() });
    }
    m
}

#[test]
fn first_interval_finds_first_window() {
    let r = ResourceIntervals { first_available_interval: 0, intervals: vec![1, 3, 3, 0, 3] };
    assert_eq!(Some(1), r.get_first_interval(2, 0, 2));
    assert_eq!(None, r.get_first_interval(2, 0, 3));
    assert_eq!(Some(4), r.get_first_interval(2, 3, 1));
    assert_eq!(Some(0), r.get_first_interval(1, 0, 1));
    assert_eq!(None, r.get_first_interval(4, 0, 1));
}

#[test]
fn first_interval_zero_duration_finds_nothing() {
    let r = ResourceIntervals { first_available_interval: 0, intervals: vec![3, 3] };
    assert_eq!(None, r.get_first_interval(1, 0, 0));
}

#[test]
fn first_interval_respects_first_available() {
    let r = ResourceIntervals { first_available_interval: 2, intervals: vec![3, 3, 3, 3] };
    assert_eq!(Some(2), r.get_first_interval(1, 0, 2));
    assert_eq!(Some(3), r.get_first_interval(1, 3, 1));
    assert_eq!(None, r.get_first_interval(1, 4, 1));
}

#[test]
fn deduct_takes_quantity_in_range() {
    let mut r = ResourceIntervals { first_available_interval: 0, intervals: vec![5, 5, 5, 5] };
    r.deduct(1, 2, 3);
    assert_eq!(vec![5, 2, 2, 5], r.intervals);
    r.deduct(3, 4, 1);
    assert_eq!(vec![5, 2, 2, 4], r.intervals);
    r.deduct(0, 0, 5);
    assert_eq!(vec![5, 2, 2, 4], r.intervals);
    assert_eq!(0, r.first_available_interval);
}

#[test]
fn first_fit_needs_all_resources_at_once() {
    let m = manager(4, &[("A", 0, vec![0, 1, 1, 1, 1]), ("B", 0, vec![1, 1, 0, 1, 1])]);
    let t = task("t", 0, Some(needs(&[("A", 1), ("B", 1)])), None, 2);
    assert_eq!(Some(3), m.get_first_fit(&t, 0));
    let t_rev = task("t", 0, Some(needs(&[("B", 1), ("A", 1)])), None, 2);
    assert_eq!(Some(3), m.get_first_fit(&t_rev, 0));
    assert_eq!(None, m.get_first_fit(&t, 4));
}

#[test]
fn first_fit_respects_max_interval_and_first_available() {
    let m = manager(2, &[("E", 0, vec![0, 1, 1])]);
    assert_eq!(Some(1), m.get_first_fit(&task("t", 0, Some(needs(&[("E", 1)])), None, 2), 0));
    assert_eq!(None, m.get_first_fit(&task("t", 0, Some(needs(&[("E", 1)])), None, 3), 0));
    let late = manager(2, &[("E", 2, vec![1, 1, 1])]);
    assert_eq!(Some(2), late.get_first_fit(&task("t", 0, Some(needs(&[("E", 1)])), None, 1), 0));
}

#[test]
fn first_fit_with_empty_needs() {
    let m = manager(3, &[]);
    let t = task("t", 1, Some(NameMap::new()), None, 2);
    assert_eq!(Some(2), m.get_first_fit(&t, 2));
    assert_eq!(None, m.get_first_fit(&t, 3));
    let free = task("t", 1, None, None, 2);
    assert_eq!(Some(7), m.get_first_fit(&free, 7));
}

#[test]
fn found_resource_slot_is_stable() {
    let m = manager(5, &[("A", 0, vec![0, 2, 0, 2, 2, 2])]);
    let t = task("t", 0, Some(needs(&[("A", 2)])), None, 2);
    let found = m.get_first_fit(&t, 0).unwrap();
    assert_eq!(3, found);
    assert_eq!(Some(found), m.get_first_fit(&t, found));
    assert_eq!(Some(4), m.get_first_fit(&t, 4));
}

#[test]
fn schedule_deducts_booked_resources() {
    let mut m = manager(2, &[("E", 0, vec![2, 2, 2]), ("M", 0, vec![3, 3, 3])]);
    let t = task("t", 0, Some(needs(&[("E", 1), ("M", 3)])), None, 2);
    let slot = m.get_first_fit(&t, 0).unwrap();
    assert_eq!(0, slot);
    m.schedule(&t, 1);
    assert_eq!(vec![2, 1, 1], intervals_of(&m, "E"));
    assert_eq!(vec![3, 0, 0], intervals_of(&m, "M"));
    assert_eq!(Some(0), m.get_first_fit(&task("u", 0, Some(needs(&[("E", 2)])), None, 1), 0));
    assert_eq!(None, m.get_first_fit(&task("u", 0, Some(needs(&[("M", 1)])), None, 2), 0));
}

#[test]
fn schedule_stops_at_missing_resource() {
    let mut m = manager(1, &[("A", 0, vec![2, 2]), ("B", 0, vec![2, 2])]);
    let t = task("t", 0, Some(needs(&[("A", 1), ("Missing", 1), ("B", 1)])), None, 2);
    m.schedule(&t, 0);
    assert_eq!(vec![1, 1], intervals_of(&m, "A"));
    assert_eq!(vec![2, 2], intervals_of(&m, "B"));
}

#[test]
fn schedule_without_needs_changes_nothing() {
    let mut m = manager(1, &[("A", 0, vec![2, 2])]);
    m.schedule(&task("t", 0, None, None, 2), 0);
    assert_eq!(vec![2, 2], intervals_of(&m, "A"));
}

#[test]
fn relation_is_read_back_both_ways() {
    let mut chart = StatusRelationChart::new();
    assert_eq!(None, chart.get_relation("Hot", "Cold"));
    chart.insert_relation("Hot", "Cold", false);
    chart.insert_relation("Wet", "Dry", true);
    assert_eq!(Some(false), chart.get_relation("Cold", "Hot"));
    assert_eq!(Some(true), chart.get_relation("Dry", "Wet"));
    chart.insert_relation("Cold", "Hot", true);
    assert_eq!(Some(true), chart.get_relation("Hot", "Cold"));
    assert_eq!(Some(true), chart.get_relation("Cold", "Hot"));
    assert_eq!(None, chart.get_relation("Hot", "Wet"));
}

#[test]
fn compatibility_is_symmetric() {
    let mut chart = StatusRelationChart::new();
    chart.insert_relation("Hot", "Cold", false);
    chart.insert_relation("Hot", "Wet", true);
    let a = config(&["Hot", "Wet"]);
    let b = config(&["Dry", "Cold"]);
    let c = config(&["Wet"]);
    assert!(!chart.get_config_compatibility(&a, &b));
    assert!(!chart.get_config_compatibility(&b, &a));
    assert!(chart.get_config_compatibility(&a, &c));
    assert!(chart.get_config_compatibility(&c, &a));
    assert!(chart.get_config_compatibility(&config(&[]), &b));
}

#[test]
fn config_first_fit_skips_incompatible_intervals() {
    let mut m = hot_cold_manager(5);
    m.config_intervals[1] = config(&["Hot"]);
    m.config_intervals[3] = config(&["Hot"]);
    let cold = task("c", 0, None, Some(config(&["Cold"])), 1);
    assert_eq!(Some(0), m.get_first_fit(&cold, 0));
    assert_eq!(Some(2), m.get_first_fit(&cold, 1));
    let long_cold = task("c", 0, None, Some(config(&["Cold"])), 2);
    assert_eq!(None, m.get_first_fit(&long_cold, 0));
    let zero = task("c", 0, None, Some(config(&["Cold"])), 0);
    assert_eq!(None, m.get_first_fit(&zero, 0));
    let hot = task("h", 0, None, Some(config(&["Hot"])), 5);
    assert_eq!(Some(0), m.get_first_fit(&hot, 0));
}

#[test]
fn config_schedule_adds_each_status_once() {
    let mut m = hot_cold_manager(3);
    m.config_intervals[1] = config(&["A"]);
    let t = task("t", 0, None, Some(config(&["B", "A", "B"])), 2);
    m.schedule(&t, 1);
    assert_eq!(Vec::<String>::new(), m.config_intervals[0].statuses);
    assert_eq!(vec!["A".to_string(), "B".to_string()], m.config_intervals[1].statuses);
    assert_eq!(vec!["B".to_string(), "A".to_string()], m.config_intervals[2].statuses);
    m.schedule(&t, 1);
    assert_eq!(vec!["A".to_string(), "B".to_string()], m.config_intervals[1].statuses);
    assert_eq!(vec!["B".to_string(), "A".to_string()], m.config_intervals[2].statuses);
}

#[test]
fn config_schedule_without_configuration_changes_nothing() {
    let mut m = hot_cold_manager(2);
    m.schedule(&task("t", 0, None, None, 2), 0);
    assert!(m.config_intervals.iter().all(|c| c.statuses.is_empty()));
}

#[test]
fn found_config_slot_is_stable() {
    let mut m = hot_cold_manager(4);
    m.config_intervals[0] = config(&["Hot"]);
    let cold = task("c", 0, None, Some(config(&["Cold"])), 2);
    let found = m.get_first_fit(&cold, 0).unwrap();
    assert_eq!(1, found);
    assert_eq!(Some(found), m.get_first_fit(&cold, found));
}

#[test]
fn task_list_indexes_by_id() {
    let mut list = TaskList { sequential_tasks: Vec::new(), task_map: NameMap::new() };
    list.add_task(task("a", 0, None, None, 1));
    list.add_task(task("b", 0, None, None, 1));
    assert_eq!(Some(&0), list.task_map.get(&"a".to_string()));
    assert_eq!(Some(&1), list.task_map.get(&"b".to_string()));
    list.add_task(task("a", 3, None, None, 1));
    assert_eq!(Some(&2), list.task_map.get(&"a".to_string()));
    assert_eq!(3, list.sequential_tasks.len());
    assert_eq!(2, list.task_map.len());
    assert_eq!(3, list.sequential_tasks[2].earliest_start_interval);
}

#[test]
fn task_list_iter_mut_lends_each_task() {
    let mut list = TaskList { sequential_tasks: Vec::new(), task_map: NameMap::new() };
    list.add_task(task("a", 0, None, None, 1));
    list.add_task(task("b", 0, None, None, 1));
    let mut lent = Vec::new();
    for t in list.iter_mut() {
        lent.push(t.task_id.clone());
        t.scheduled = true;
    }
    assert_eq!(vec!["a".to_string(), "b".to_string()], lent);
    assert!(list.iter().all(|t| t.scheduled));
    assert_eq!(2, list.iter().count());
}

#[test]
fn name_map_insert_replaces_in_place() {
    let mut m = NameMap::new();
    m.insert("x".to_string(), 1u16);
    m.insert("y".to_string(), 2u16);
    m.insert("x".to_string(), 3u16);
    assert_eq!(2, m.len());
    assert_eq!("x", m.key_at(0));
    assert_eq!(&3, m.value_at(0));
    assert_eq!(Some(1), m.position(&"y".to_string()));
    assert_eq!(None, m.get(&"z".to_string()));
}

#[test]
fn fewer_units_never_fit_later() {
    let r = ResourceIntervals { first_available_interval: 0, intervals: vec![1, 2, 3, 3, 1, 3] };
    assert_eq!(Some(2), r.get_first_interval(3, 0, 2));
    assert_eq!(Some(1), r.get_first_interval(2, 0, 2));
    assert_eq!(Some(0), r.get_first_interval(1, 0, 2));
}

#[test]
fn deduct_at_found_window() {
    let mut r = ResourceIntervals { first_available_interval: 0, intervals: vec![1, 2, 3, 3, 1] };
    let slot = r.get_first_interval(2, 0, 3).unwrap();
    assert_eq!(1, slot);
    r.deduct(slot, 3, 2);
    assert_eq!(vec![1, 0, 1, 1, 1], r.intervals);
}

#[test]
fn booked_status_keeps_incompatible_task_out() {
    let mut m = hot_cold_manager(6);
    let hot = task("h", 0, None, Some(config(&["Hot"])), 2);
    let slot = m.get_first_fit(&hot, 1).unwrap();
    assert_eq!(1, slot);
    m.schedule(&hot, slot);
    let cold = task("c", 0, None, Some(config(&["Cold"])), 2);
    assert_eq!(Some(3), m.get_first_fit(&cold, 0));
    let short_cold = task("c", 0, None, Some(config(&["Cold"])), 1);
    assert_eq!(Some(0), m.get_first_fit(&short_cold, 0));
    assert_eq!(Some(3), m.get_first_fit(&short_cold, 1));
}

#[test]
fn search_without_configuration_ignores_calendar() {
    let m = hot_cold_manager(0);
    assert_eq!(Some(9), m.get_first_fit(&task("t", 4, None, None, 3), 9));
    assert_eq!(Some(4), m.get_first_fit(&task("t", 4, None, None, 3), 2));
}
