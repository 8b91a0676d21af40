use oji::{OjiResult, OjiResultUnit};

#[test]
fn null_result() {
    let r = OjiResult::new();
    let expected_r = OjiResult {
        values: Vec::new(),
        var_map: Vec::new(),
    };
    assert_eq!(r, expected_r);
}

#[test]
fn add_val() {
    let mut r = OjiResult::new();
    r.add_val(OjiResultUnit::Val(String::from("Gabe")));
    let v = vec![OjiResultUnit::Val(String::from("Gabe"))];
    let expected_r = OjiResult {
        values: v,
        var_map: Vec::new(),
    };
    assert_eq!(r, expected_r);
}

#[test]
fn add_var() {
    let mut r = OjiResult::new();
    r.add_var("name".into(), "Gabe".into());
    let v = vec![OjiResultUnit::Val(String::from("Gabe"))];
    let h: Vec<(String, usize)> = vec![(String::from("name"), 0)];
    let expected_r = OjiResult {
        values: v,
        var_map: h,
    };
    assert_eq!(r, expected_r);
}

#[test]
fn get_var() {
    let v = vec![OjiResultUnit::Val(String::from("Gabe"))];
    let h: Vec<(String, usize)> = vec![(String::from("name"), 0)];
    let r = OjiResult {
        values: v,
        var_map: h,
    };
    assert_eq!(r.get_var("name"), Some(String::from("Gabe")));
}
