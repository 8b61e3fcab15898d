use iwwc::config::parse_str;
use iwwc::config::ConfigErrorKind;
use iwwc::config::Severity;

/// The errors and warnings that reading a document reports.
fn messages(text: &str) -> (Vec<String>, Vec<String>) {
    let (outline, issues) = parse_str(text, "<test>");
    let mut errors = Vec::new();
    let mut warnings = Vec::new();
    assert_eq!(outline.is_some(), !issues.iter().any(|i| i.severity == Severity::Error));
    for issue in &issues {
        match issue.severity {
            Severity::Error => errors.push(issue.message.clone()),
            Severity::Warning => warnings.push(issue.message.clone()),
        }
    }
    (errors, warnings)
}

fn ok(text: &str) {
    let (errors, _) = messages(text);
    assert!(errors.is_empty(), "`{}`: expected no errors, got {:?}", text, errors);
}

fn err(text: &str, expected: &str) {
    let (errors, _) = messages(text);
    assert!(errors.iter().any(|e| e == expected), "`{}`: expected `{}`, got {:?}", text, expected, errors);
}

fn warn(text: &str, expected: &str) {
    let (_, warnings) = messages(text);
    assert!(warnings.iter().any(|w| w == expected), "`{}`: expected `{}`, got {:?}", text, expected, warnings);
}

#[test]
fn variables() {
    ok("var x=1");
    ok("var x=1.1");
    ok("var x=hello");
    ok(r#"var x="hello world""#);
    ok("var x=\"\"\"\nhello\nworld\n\"\"\"");
    ok(r#"var a=1 b=2.0 c="text""#);
    ok(r#"var y=1 var x="${y/2}""#);
    ok(r#"var x="container box1 w=200.5 h=40.0 child=btn1""#);
    err("var x", "variable declaration requires a value");
    warn("var x=1\nvar x=2", "variable x is defined twice, using first");
}

#[test]
fn apptray_block() {
    ok("apptray icon_size=24 spacing=6");
    ok("widget bar child=apptray\napptray icon_size=20");
    ok("apptray swap_buttons=#true");
    err("widget apptray child=t1\ntext t1", "\"apptray\" is a reserved id");
    err("text apptray", "\"apptray\" is a reserved id");
    warn("apptray icon_size=24\napptray icon_size=30", "apptray block is defined twice, using first");
}

#[test]
fn notification_block() {
    ok("notification width=400 height=110");
    ok("notification primary_text=ffffff secondary_text=cccccc bg=222222");
    ok(r#"notification anchor="t | r""#);
    ok("notification layer=overlay");
    ok("notification border=nb\nborder nb color=444444 w=1 radius=8");
    err(
        "notification bg=xyz",
        "invalid color format, expected rrggbb, rrggbbaa, #rrggbb, #rrggbbaa, transparent, or int",
    );
    err(
        "notification layer=middle",
        "invalid layer value \"middle\", expected one of: top, bottom, background, overlay",
    );
    warn("notification width=400\nnotification width=500", "notification block is defined twice, using first");
}

#[test]
fn pull_nodes_in_a_document() {
    ok(r#"pull dt="date" i="1s""#);
    err(r#"pull dt="date" i="1x""#, "invalid interval \"1x\"");
    warn(
        "var dt=1\npull dt=\"date\" i=\"1s\"",
        "variable dt is defined twice, using first",
    );
    err("frobnicate", "unknown node \"frobnicate\"");
}

#[test]
fn text_that_is_not_kdl() {
    let (outline, issues) = parse_str("widget bar {", "<test>");
    assert!(outline.is_none());
    assert_eq!(issues.len(), 1);
    assert_eq!(issues[0].kind, ConfigErrorKind::Syntax);
    assert_eq!(issues[0].severity, Severity::Error);
    assert!(issues[0].message.starts_with("KDL syntax error: "));
    assert_eq!((issues[0].node, issues[0].entry), (0, None));
}

#[test]
fn text_parsed_into_an_outline() {
    let (outline, issues) = parse_str("var x=1 y=\"a\"\ntext t1\ntext t1\nrow r { children a b; }", "<test>");
    let o = outline.expect("only a warning");
    let vars: Vec<&str> = o.vars.iter().map(|v| v.name.as_str()).collect();
    assert_eq!(vars, vec!["x", "y"]);
    let ids: Vec<(&str, usize)> = o.elements.iter().map(|e| (e.id.as_str(), e.node)).collect();
    assert_eq!(ids, vec![("t1", 1), ("r", 3)]);
    assert_eq!(issues.len(), 1);
    assert_eq!(issues[0].message, "text t1 is defined twice, using first");
    assert_eq!(issues[0].severity, Severity::Warning);
    let (none, errs) = parse_str("var x", "<test>");
    assert!(none.is_none());
    assert_eq!(errs[0].message, "variable declaration requires a value");
}

#[test]
fn fields_of_a_discarded_duplicate_are_still_read() {
    let (outline, issues) = parse_str("widget w1 h=30\nwidget w1 anchor=#true", "<test>");
    assert!(outline.is_none());
    let found: Vec<(Severity, &str, usize, Option<usize>)> =
        issues.iter().map(|i| (i.severity, i.message.as_str(), i.node, i.entry)).collect();
    assert_eq!(
        found,
        vec![
            (Severity::Error, "anchor must be a string", 1, Some(1)),
            (Severity::Warning, "widget w1 is defined twice, using first", 1, None),
        ]
    );
    assert_eq!(issues[0].kind, ConfigErrorKind::InvalidEnumValue);
    assert_eq!(issues[1].kind, ConfigErrorKind::DuplicateElement);
}

#[test]
fn element_field_errors() {
    err("widget w layer=middle", "invalid layer value \"middle\", expected one of: top, bottom, background, overlay");
    err("widget w exclusive=1", "invalid bool, expected #true or #false");
    err("widget w h=\"tall\"", "field `h` expects a number");
    err("container c", "child is required");
    err("container c child=1", "field `child` expects an id (string)");
    err("container c child=t w=\"wide\"", "invalid length value \"wide\"");
    err("container c child=t w=\"portion\"", "portion requires an integer argument");
    err("row r", "children is required");
    err("column c { children; }", "children requires at least one id");
    err("row r align=\"sideways\" { children a; }", "invalid align value for row, expected one of: t, c, b, top, center, bottom");
    err("style s bg=\"nope\"", "invalid color format, expected rrggbb, rrggbbaa, #rrggbb, #rrggbbaa, transparent, or int");
    err("border b { radius 1 2; }", "radius accepts 1 or 4 values");
    err("shadow s { offset 1; }", "offset requires exactly 2 values");
    err("font f weight=\"heavy\"", "invalid weight, expected one of: thin, extra-light, light, normal, medium, semibold, bold, extra-bold, black");
    err("font f style=\"slanted\"", "invalid style, expected one of: normal, italic, oblique");
    err("text t align_x=\"middle\"", "invalid align_x value, expected one of: l, c, r, j, left, center, right, justified");
    err("button b action=1", "field `action` expects a string");
    err("apptray padding=\"x\"", "padding accepts 1, 2, or 4 values");
    ok("widget w h=30 w=\"${width}\" layer=top anchor=\"t | l | r\" exclusive=#true child=c");
    ok("container c child=t w=fill h=shrink padding=4 align_x=center clip=#false");
    ok("row r align=c { children a b; }");
    ok("border b color=444444 w=1 { radius 1 2 3 4; }");
    ok("shadow s { offset 1 2; }");
    ok("font f family=\"Inter\" weight=bold stretch=condensed style=italic");
    ok("text t align_x=j color=ffffff text=\"hi\"");
}
