use mcstarter::envsub::pass_envs;
use mcstarter::errors::McError;

fn env(pairs: Vec<(&str, &str)>) -> Vec<(String, String)> {
    pairs
        .into_iter()
        .map(|(k, v)| (k.to_string(), v.to_string()))
        .collect()
}

#[test]
fn substitutes_bound_placeholders() {
    let e = env(vec![("HOST", "example"), ("PORT_2", "8080")]);
    let out = pass_envs("addr: ${HOST}:${PORT_2}!", &e).unwrap();
    assert_eq!(out, "addr: example:8080!");
}

#[test]
fn missing_variable_fails_closed() {
    let e = env(vec![("HOST", "example")]);
    let err = pass_envs("addr: ${HOST} ${PORT}", &e).unwrap_err();
    assert_eq!(err, McError::MissingEnvVar("PORT".to_string()));
}

#[test]
fn non_placeholders_are_copied_verbatim() {
    let e = env(vec![("X", "1")]);
    assert_eq!(pass_envs("${x} ${} ${X", &e).unwrap(), "${x} ${} ${X");
    assert_eq!(pass_envs("", &e).unwrap(), "");
    assert_eq!(pass_envs("$X {X}", &e).unwrap(), "$X {X}");
}

#[test]
fn substituted_values_are_not_rescanned() {
    let e = env(vec![("A", "${B}"), ("B", "2")]);
    assert_eq!(pass_envs("v: ${A}", &e).unwrap(), "v: ${B}");
}

#[test]
fn repeated_placeholder_is_replaced_everywhere() {
    let e = env(vec![("N", "7")]);
    assert_eq!(pass_envs("${N}${N} and ${N}", &e).unwrap(), "77 and 7");
}

#[test]
fn name_directly_after_broken_opener_is_found() {
    let e = env(vec![("A", "1")]);
    assert_eq!(pass_envs("${${A}", &e).unwrap(), "${1");
}
