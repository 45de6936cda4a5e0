use terragrunt_dag::gha::{generate_gha, matrix_entries, GhaCell, GhaEntry, GhaOptions};
use terragrunt_dag::names::NameSet;
use terragrunt_dag::project::Project;

fn project(dir: &str, deps: Vec<&str>) -> Project {
    Project {
        name: dir.trim_start_matches('/').replace('/', "_"),
        dir: dir.to_string(),
        project_dependencies: deps.into_iter().map(String::from).collect(),
        watch_files: vec![],
        has_terraform_source: true,
    }
}

fn names(list: &[&str]) -> NameSet {
    let mut set = NameSet::new();
    for name in list {
        set = set.insert(name).0;
    }
    set
}

fn options(units_per_job: usize, max_units_per_layer: usize) -> GhaOptions {
    GhaOptions { units_per_job, max_units_per_layer, max_layers: None }
}

/// A graph with the given numbers of units in its layers.
fn tree(profile: &[usize]) -> Vec<Project> {
    let mut projects = vec![];
    for (layer, count) in profile.iter().enumerate() {
        for i in 0..*count {
            let below = format!("/r/l{}/u000", layer.wrapping_sub(1));
            let deps = if layer == 0 { vec![] } else { vec![below.as_str()] };
            projects.push(project(&format!("/r/l{}/u{:03}", layer, i), deps));
        }
    }
    projects
}

/// Depth, cells and widest layer of a matrix.
fn shape(cells: &[GhaCell]) -> (usize, usize, usize) {
    let depth = cells.iter().map(|c| c.layer as usize + 1).max().unwrap_or(0);
    let widest = (0..depth).map(|l| cells.iter().filter(|c| c.layer as usize == l).count()).max().unwrap_or(0);
    (depth, cells.len(), widest)
}

#[test]
fn wide_layers_are_narrowed() {
    let projects = tree(&[414, 238, 83, 67, 42, 40, 22, 7]);
    assert_eq!(projects.len(), 913);
    let none = NameSet::new();
    let run = |opts: GhaOptions| shape(&generate_gha(&projects, &None, &none, false, &opts).unwrap());
    assert_eq!(run(options(1, 0)), (8, 913, 414));
    assert_eq!(run(options(1, 256)), (9, 913, 256));
    assert_eq!(run(options(1, 100)), (14, 913, 100));
    assert_eq!(run(options(2, 256)), (8, 458, 207));
    assert_eq!(run(options(5, 100)), (8, 186, 83));
}

#[test]
fn packing_keeps_the_depth() {
    let projects = tree(&[10, 4, 3]);
    let none = NameSet::new();
    for k in 0..12 {
        let cells = generate_gha(&projects, &None, &none, false, &options(k, 0)).unwrap();
        assert_eq!(shape(&cells).0, 3);
    }
}

#[test]
fn a_cell_is_named_after_its_first_unit() {
    let projects = vec![
        project("/repo/live/prod/vpc", vec![]),
        project("/repo/live/prod/zone", vec![]),
        project("/repo/live/prod/web", vec![]),
    ];
    let base = Some("/repo".to_string());
    let cells = generate_gha(&projects, &base, &names(&["/repo/live/prod/web"]), false, &options(3, 256)).unwrap();
    assert_eq!(cells.len(), 1);
    assert_eq!(cells[0].name, "live_prod_vpc (+2 more)");
    assert_eq!(cells[0].layer, 0);
    assert!(cells[0].changed);
    let units: Vec<&str> = cells[0].units.iter().map(|u| u.working_directory.as_str()).collect();
    assert_eq!(units, vec!["live/prod/vpc", "live/prod/web", "live/prod/zone"]);
    assert!(!cells[0].units[0].changed);
    assert!(cells[0].units[1].changed);
}

#[test]
fn a_single_unit_names_its_cell() {
    let projects = vec![project("/repo/a", vec![]), project("/repo/b", vec!["/repo/a", "/elsewhere"])];
    let base = Some("/repo".to_string());
    let cells = generate_gha(&projects, &base, &NameSet::new(), false, &GhaOptions::default()).unwrap();
    assert_eq!(cells.len(), 2);
    assert_eq!(cells[0].name, "a");
    assert_eq!(cells[1].name, "b");
    assert_eq!(cells[1].layer, 1);
    assert_eq!(cells[1].units[0].dependencies, vec!["a".to_string(), "_elsewhere".to_string()]);
    assert!(!cells[0].changed && !cells[1].changed);
}

#[test]
fn layers_are_assigned_after_filtering() {
    let projects = vec![
        project("/r/a", vec![]),
        project("/r/b", vec!["/r/a"]),
        project("/r/c", vec!["/r/b"]),
        project("/r/d", vec!["/r/c"]),
    ];
    let opts = GhaOptions { units_per_job: 1, max_units_per_layer: 256, max_layers: Some(1) };
    let cells = generate_gha(&projects, &None, &names(&["/r/d"]), true, &opts).unwrap();
    assert_eq!(cells.len(), 1);
    assert_eq!(cells[0].layer, 0);
    assert_eq!(cells[0].units[0].working_directory, "/r/d");
}

#[test]
fn no_change_gives_an_empty_matrix() {
    let projects = tree(&[3, 2]);
    let cells = generate_gha(&projects, &None, &NameSet::new(), true, &GhaOptions::default()).unwrap();
    assert!(cells.is_empty());
}

#[test]
fn too_many_layers_are_an_error() {
    let projects = tree(&[1, 1, 1]);
    let opts = GhaOptions { units_per_job: 1, max_units_per_layer: 256, max_layers: Some(2) };
    match generate_gha(&projects, &None, &NameSet::new(), false, &opts) {
        Err(message) => assert_eq!(message, "the graph needs 3 layers, but at most 2 are allowed"),
        Ok(cells) => panic!("Expected an error, got {} cells", cells.len()),
    }
    let opts = GhaOptions { units_per_job: 1, max_units_per_layer: 256, max_layers: Some(3) };
    assert!(generate_gha(&projects, &None, &NameSet::new(), false, &opts).is_ok());
}

#[test]
fn every_unit_is_in_the_matrix_once() {
    let projects = tree(&[7, 5]);
    let cells = generate_gha(&projects, &None, &NameSet::new(), false, &options(2, 3)).unwrap();
    let mut dirs: Vec<String> = cells.iter().flat_map(|c| c.units.iter().map(|u| u.working_directory.clone())).collect();
    dirs.sort();
    let mut expected: Vec<String> = projects.iter().map(|p| p.dir.clone()).collect();
    expected.sort();
    assert_eq!(dirs, expected);
    assert!(cells.iter().all(|c| !c.units.is_empty() && c.units.len() <= 2));
}

#[test]
fn dependencies_run_in_earlier_layers() {
    let projects = tree(&[7, 5, 2]);
    let cells = generate_gha(&projects, &None, &NameSet::new(), false, &options(1, 2)).unwrap();
    let layer_of = |dir: &str| cells.iter().find(|c| c.units[0].working_directory == dir).unwrap().layer;
    for p in &projects {
        for d in &p.project_dependencies {
            assert!(layer_of(d) < layer_of(&p.dir));
        }
    }
    let mut last = 0;
    for cell in &cells {
        assert!(cell.layer == last || cell.layer == last + 1);
        last = cell.layer;
    }
}

#[test]
fn the_matrix_does_not_depend_on_the_order_of_projects() {
    let forward = tree(&[5, 4, 3]);
    let mut backward = tree(&[5, 4, 3]);
    backward.reverse();
    let changed = names(&["/r/l0/u001", "/r/l1/u000", "/r/l2/u002"]);
    for filter in [false, true] {
        for k in [1, 2] {
            let a = generate_gha(&forward, &None, &changed, filter, &options(k, 2)).unwrap();
            let b = generate_gha(&backward, &None, &changed, filter, &options(k, 2)).unwrap();
            assert_eq!(a, b);
        }
    }
}

#[test]
fn layers_are_numbered_without_gaps() {
    let projects = tree(&[3, 3, 3, 3]);
    let changed = names(&["/r/l3/u000", "/r/l2/u000", "/r/l0/u002"]);
    let cells = generate_gha(&projects, &None, &changed, true, &options(1, 256)).unwrap();
    let mut layers: Vec<u32> = cells.iter().map(|c| c.layer).collect();
    layers.dedup();
    assert_eq!(layers, vec![0, 1]);
    let cells = generate_gha(&projects, &None, &changed, false, &options(1, 2)).unwrap();
    let mut layers: Vec<u32> = cells.iter().map(|c| c.layer).collect();
    layers.dedup();
    assert_eq!(layers, vec![0, 1, 2, 3, 4, 5, 6, 7]);
}

#[test]
fn entries_have_the_shape_of_the_options() {
    let projects = tree(&[3, 1]);
    let none = NameSet::new();
    let opts = options(1, 256);
    let entries = matrix_entries(generate_gha(&projects, &None, &none, false, &opts).unwrap(), &opts);
    let found: Vec<(&str, u32)> = entries
        .iter()
        .map(|e| match e {
            GhaEntry::Single { unit, layer } => (unit.working_directory.as_str(), *layer),
            GhaEntry::Packed(_) => panic!("no units are packed"),
        })
        .collect();
    assert_eq!(found, vec![("/r/l0/u000", 0), ("/r/l0/u001", 0), ("/r/l0/u002", 0), ("/r/l1/u000", 1)]);

    let opts = options(3, 256);
    let entries = matrix_entries(generate_gha(&projects, &None, &none, false, &opts).unwrap(), &opts);
    let found: Vec<(usize, u32)> = entries
        .iter()
        .map(|e| match e {
            GhaEntry::Packed(cell) => (cell.units.len(), cell.layer),
            GhaEntry::Single { .. } => panic!("units are packed"),
        })
        .collect();
    assert_eq!(found, vec![(3, 0), (1, 1)]);
}
