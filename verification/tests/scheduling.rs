use task_scheduler::{
    Configuration, ConfigurationManager, ConstraintManager, NameMap, ResourceIntervals, ResourceManager,
    StatusRelationChart, Task, TaskList,
};

fn task_with(
    task_id: &str,
    earliest_start_interval: u32,
    resource_needs: Option<NameMap<u16>>,
    configuration: Option<Configuration>,
    du: u32,
) -> Task {
    Task {
        task_id: task_id.to_string(),
        priority: 1,
        earliest_start_interval,
        predecessors: None,
        resource_needs,
        configuration,
        du,
        scheduled: false,
        start_interval: None,
        complete_interval: None,
    }
}

#[test]
fn task_without_needs() {
    let mut calendar = ResourceManager {
        calendar: NameMap::new(),
        max_interval: 1,
    };

    let mut _resource_interval = ResourceManager {
        calendar: NameMap::new(),
        max_interval: 1,
    };

    calendar.calendar.insert(
        "Electrician".to_string(),
        ResourceIntervals {
            first_available_interval: 0,
            intervals: vec![2, 2],
        },
    );

    calendar.calendar.insert(
        "Mechanic".to_string(),
        ResourceIntervals {
            first_available_interval: 0,
            intervals: vec![2, 2],
        },
    );

    let mut test_task = Task {
        task_id: "task_id".to_string(),
        priority: 1,
        earliest_start_interval: 0,
        predecessors: None,
        resource_needs: None,
        configuration: None,
        du: 1,
        scheduled: false,
        start_interval: None,
        complete_interval: None,
    };

    assert_eq!(Some(0), calendar.get_first_fit(&mut test_task, 0));
    assert_eq!(Some(1), calendar.get_first_fit(&mut test_task, 1));
}

#[test]
fn tasks_with_needs() {
    let mut calendar = ResourceManager {
        calendar: NameMap::new(),
        max_interval: 1,
    };

    let mut needs = NameMap::new();
    needs.insert("Electrician".to_string(), 2);
    needs.insert("Mechanic".to_string(), 2);

    calendar.calendar.insert(
        "Electrician".to_string(),
        ResourceIntervals {
            first_available_interval: 0,
            intervals: vec![2, 2],
        },
    );

    calendar.calendar.insert(
        "Mechanic".to_string(),
        ResourceIntervals {
            first_available_interval: 0,
            intervals: vec![2, 2],
        },
    );

    let mut test_task1 = Task {
        task_id: "task_id1".to_string(),
        priority: 1,
        earliest_start_interval: 0,
        predecessors: None,
        resource_needs: Some(needs.clone()),
        configuration: None,
        du: 1,
        scheduled: false,
        start_interval: None,
        complete_interval: None,
    };

    let mut test_task2 = Task {
        task_id: "task_id2".to_string(),
        priority: 1,
        earliest_start_interval: 0,
        predecessors: None,
        resource_needs: Some(needs),
        configuration: None,
        du: 1,
        scheduled: false,
        start_interval: None,
        complete_interval: None,
    };

    assert_eq!(Some(0), calendar.get_first_fit(&mut test_task1, 0));
    assert_eq!(Some(1), calendar.get_first_fit(&mut test_task1, 1));
    calendar.schedule(&test_task1, 0);
    assert_eq!(Some(1), calendar.get_first_fit(&mut test_task2, 0));
    calendar.schedule(&test_task2, 1);
}

#[test]
fn too_needy_tasks() {
    let mut calendar = ResourceManager {
        calendar: NameMap::new(),
        max_interval: 1,
    };

    let mut needs = NameMap::new();
    needs.insert("Electrician".to_string(), 2);
    needs.insert("Mechanic".to_string(), 2);

    calendar.calendar.insert(
        "Electrician".to_string(),
        ResourceIntervals {
            first_available_interval: 0,
            intervals: vec![1, 1],
        },
    );

    calendar.calendar.insert(
        "Mechanic".to_string(),
        ResourceIntervals {
            first_available_interval: 0,
            intervals: vec![1, 1],
        },
    );

    let mut test_task = Task {
        task_id: "task_id1".to_string(),
        priority: 1,
        earliest_start_interval: 0,
        predecessors: None,
        resource_needs: Some(needs.clone()),
        configuration: None,
        du: 1,
        scheduled: false,
        start_interval: None,
        complete_interval: None,
    };

    assert_eq!(None, calendar.get_first_fit(&mut test_task, 0));
}

#[test]
fn missing_needs_tasks() {
    let mut calendar = ResourceManager {
        calendar: NameMap::new(),
        max_interval: 1,
    };

    let mut needs = NameMap::new();
    needs.insert("Electrician".to_string(), 2);
    needs.insert("Mechanic".to_string(), 2);

    calendar.calendar.insert(
        "Mechanic".to_string(),
        ResourceIntervals {
            first_available_interval: 0,
            intervals: vec![1, 1],
        },
    );

    let mut test_task = Task {
        task_id: "task_id1".to_string(),
        priority: 1,
        earliest_start_interval: 0,
        predecessors: None,
        resource_needs: Some(needs.clone()),
        configuration: None,
        du: 1,
        scheduled: false,
        start_interval: None,
        complete_interval: None,
    };

    assert_eq!(None, calendar.get_first_fit(&mut test_task, 0));
}

#[test]
fn tasks_with_config_reqs() {
    let mut chart = StatusRelationChart::new();
    chart.insert_relation("Hot", "Cold", false);

    assert_eq!(Some(false), chart.get_relation("Hot", "Cold"));
    assert_eq!(Some(false), chart.get_relation("Cold", "Hot"));
    assert_eq!(None, chart.get_relation("Hot", "Hot"));

    let mut config_calendar = ConfigurationManager {
        config_intervals: Vec::new(),
        status_relations: chart,
    };

    config_calendar.config_intervals.push(Configuration { statuses: Vec::new() });
    config_calendar.config_intervals.push(Configuration { statuses: Vec::new() });
    config_calendar.config_intervals.push(Configuration { statuses: Vec::new() });
    config_calendar.config_intervals.push(Configuration { statuses: Vec::new() });

    let test_task_one = Task {
        task_id: "task_id1".to_string(),
        priority: 1,
        earliest_start_interval: 0,
        predecessors: None,
        resource_needs: None,
        configuration: Some(Configuration { statuses: vec!["Hot".to_string()] }),
        du: 1,
        scheduled: false,
        start_interval: None,
        complete_interval: None,
    };

    let test_task_two = Task {
        task_id: "task_id2".to_string(),
        priority: 1,
        earliest_start_interval: 0,
        predecessors: None,
        resource_needs: None,
        configuration: Some(Configuration { statuses: vec!["Hot".to_string()] }),
        du: 1,
        scheduled: false,
        start_interval: None,
        complete_interval: None,
    };

    let test_task_three = Task {
        task_id: "task_id3".to_string(),
        priority: 1,
        earliest_start_interval: 0,
        predecessors: None,
        resource_needs: None,
        configuration: Some(Configuration { statuses: vec!["Cold".to_string()] }),
        du: 1,
        scheduled: false,
        start_interval: None,
        complete_interval: None,
    };

    assert_eq!(Some(0), config_calendar.get_first_fit(&test_task_one, 0));
    assert_eq!(Some(1), config_calendar.get_first_fit(&test_task_one, 1));
    assert_eq!(Some(0), config_calendar.get_first_fit(&test_task_two, 0));
    assert_eq!(Some(0), config_calendar.get_first_fit(&test_task_three, 0));

    config_calendar.schedule(&test_task_one, 0);

    assert_eq!(Some(0), config_calendar.get_first_fit(&test_task_two, 0));

    config_calendar.schedule(&test_task_two, 0);

    assert_eq!(Some(1), config_calendar.get_first_fit(&test_task_three, 0));

    config_calendar.schedule(&test_task_three, 1);

    assert!(config_calendar.config_intervals[0].statuses.contains(&"Hot".to_string()));
    assert!(config_calendar.config_intervals[1].statuses.contains(&"Cold".to_string()));
}

#[test]
fn config_manager_different_early_start() {
    let mut chart = StatusRelationChart::new();
    chart.insert_relation("Hot", "Cold", false);

    assert_eq!(Some(false), chart.get_relation("Hot", "Cold"));
    assert_eq!(Some(false), chart.get_relation("Cold", "Hot"));
    assert_eq!(None, chart.get_relation("Hot", "Hot"));

    let mut config_calendar = ConfigurationManager {
        config_intervals: Vec::new(),
        status_relations: chart,
    };

    config_calendar.config_intervals.push(Configuration { statuses: Vec::new() });
    config_calendar.config_intervals.push(Configuration { statuses: Vec::new() });

    let mut test_task = Task {
        task_id: "task_id1".to_string(),
        priority: 1,
        earliest_start_interval: 1,
        predecessors: None,
        resource_needs: None,
        configuration: None,
        du: 1,
        scheduled: false,
        start_interval: None,
        complete_interval: None,
    };

    assert_eq!(Some(1), config_calendar.get_first_fit(&mut test_task, 0));
}

#[test]
fn resource_manager_different_early_start() {
    let calendar = ResourceManager {
        calendar: NameMap::new(),
        max_interval: 1,
    };

    let mut test_task = Task {
        task_id: "task_id1".to_string(),
        priority: 1,
        earliest_start_interval: 1,
        predecessors: None,
        resource_needs: None,
        configuration: None,
        du: 1,
        scheduled: false,
        start_interval: None,
        complete_interval: None,
    };

    assert_eq!(Some(1), calendar.get_first_fit(&mut test_task, 0));
}

#[test]
fn task_list_iter() {
    let mut task_list = TaskList {
        sequential_tasks: Vec::new(),
        task_map: NameMap::new(),
    };

    let test_task_one = Task {
        task_id: "task_id1".to_string(),
        priority: 1,
        earliest_start_interval: 0,
        predecessors: None,
        resource_needs: None,
        configuration: Some(Configuration { statuses: vec!["Hot".to_string()] }),
        du: 1,
        scheduled: false,
        start_interval: None,
        complete_interval: None,
    };

    let test_task_two = Task {
        task_id: "task_id2".to_string(),
        priority: 1,
        earliest_start_interval: 0,
        predecessors: None,
        resource_needs: None,
        configuration: Some(Configuration { statuses: vec!["Hot".to_string()] }),
        du: 1,
        scheduled: false,
        start_interval: None,
        complete_interval: None,
    };

    let test_task_three = Task {
        task_id: "task_id3".to_string(),
        priority: 1,
        earliest_start_interval: 0,
        predecessors: None,
        resource_needs: None,
        configuration: Some(Configuration { statuses: vec!["Cold".to_string()] }),
        du: 1,
        scheduled: false,
        start_interval: None,
        complete_interval: None,
    };

    task_list.add_task(test_task_one);
    task_list.add_task(test_task_two);
    task_list.add_task(test_task_three);

    let mut task_iter = task_list.iter();

    assert!(task_iter.next().unwrap().task_id == "task_id1");
    assert!(task_iter.next().unwrap().task_id == "task_id2");
    assert!(task_iter.next().unwrap().task_id == "task_id3");
}
