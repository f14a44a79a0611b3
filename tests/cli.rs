use collada::cli::parse_params;

fn args(xs: &[&str]) -> Vec<String> {
    xs.iter().map(|s| s.to_string()).collect()
}

#[test]
fn options_are_read() {
    let p = parse_params(args(&["viewer", "-f", "-p", "3", "-b", "-s", "scene.txt"])).ok().unwrap();
    assert!(p.full_screen);
    assert_eq!(p.post_pr_id, 3);
    assert!(p.buffer_data);
    assert_eq!(p.scene_file, Some("scene.txt".to_string()));
    let d = parse_params(args(&["viewer"])).ok().unwrap();
    assert!(!d.full_screen && !d.buffer_data && d.post_pr_id == 0 && d.scene_file.is_none());
    assert!(parse_params(Vec::new()).is_ok());
}

#[test]
fn option_errors() {
    assert_eq!(parse_params(args(&["v", "-p"])).err(), Some("No shader for postprocessing given.".to_string()));
    assert_eq!(parse_params(args(&["v", "-p", "x"])).err(), Some("Invalid shader for postprocessing given.".to_string()));
    assert_eq!(parse_params(args(&["v", "-p", "70000"])).err(), Some("Invalid shader for postprocessing given.".to_string()));
    assert_eq!(parse_params(args(&["v", "-s"])).err(), Some("No scene config file given.".to_string()));
    assert_eq!(parse_params(args(&["v", "-x"])).err(), Some("Invalid argument given: -x".to_string()));
    assert_eq!(parse_params(args(&["v", "-p", "+7"])).ok().unwrap().post_pr_id, 7);
}
