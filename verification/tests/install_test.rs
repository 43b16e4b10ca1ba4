use mdbook_excalidraw::install::{
    lists_path, plan_config, ConfigFacts, ConfigPlan, HtmlFacts, InstallError, OutputFacts, Slot,
    PREPROCESSOR_COMMAND, SCRIPT_PATH, STYLE_PATH,
};

fn list(entries: &[Option<&str>]) -> Slot<Vec<Option<String>>> {
    Slot::Held(entries.iter().map(|entry| entry.map(str::to_string)).collect())
}

fn facts(
    preprocessor: Slot<bool>,
    scripts: Slot<Vec<Option<String>>>,
    styles: Slot<Vec<Option<String>>>,
) -> ConfigFacts {
    ConfigFacts {
        preprocessor,
        output: Slot::Held(OutputFacts { html: Slot::Held(HtmlFacts { scripts, styles }) }),
    }
}

fn plan(add_preprocessor: bool, add_script: bool, add_style: bool) -> Result<ConfigPlan, InstallError> {
    Ok(ConfigPlan { add_preprocessor, add_script, add_style })
}

#[test]
fn install_constants() {
    assert_eq!(PREPROCESSOR_COMMAND, "mdbook-excalidraw");
    assert_eq!(SCRIPT_PATH, "theme/excalidraw.js");
    assert_eq!(STYLE_PATH, "theme/excalidraw.css");
}

#[test]
fn path_in_a_list() {
    let entries = vec![None, Some("a.js".to_string()), Some("theme/excalidraw.js".to_string())];
    assert!(lists_path(&entries, "theme/excalidraw.js"));
    assert!(lists_path(&entries, "a.js"));
    assert!(!lists_path(&entries, "theme/excalidraw.css"));
    assert!(!lists_path(&entries, "theme/excalidraw"));
    assert!(!lists_path(&vec![], "a.js"));
    assert!(!lists_path(&vec![None, None], ""));
}

#[test]
fn empty_configuration_gets_everything() {
    let empty = ConfigFacts { preprocessor: Slot::Missing, output: Slot::Missing };
    assert_eq!(plan_config(&empty), plan(true, true, true));
    let no_html = ConfigFacts {
        preprocessor: Slot::Held(false),
        output: Slot::Held(OutputFacts { html: Slot::Missing }),
    };
    assert_eq!(plan_config(&no_html), plan(true, true, true));
    assert_eq!(plan_config(&facts(Slot::Missing, Slot::Missing, Slot::Missing)), plan(true, true, true));
}

#[test]
fn what_is_there_is_not_added_again() {
    let script = || list(&[Some("other.js"), Some("theme/excalidraw.js")]);
    let style = || list(&[Some("theme/excalidraw.css")]);
    assert_eq!(plan_config(&facts(Slot::Held(true), script(), style())), plan(false, false, false));
    assert_eq!(plan_config(&facts(Slot::Held(true), list(&[]), style())), plan(false, true, false));
    assert_eq!(plan_config(&facts(Slot::Held(false), script(), Slot::Missing)), plan(true, false, true));
    assert_eq!(
        plan_config(&facts(Slot::Held(true), list(&[None, Some("theme/excalidraw.css")]), list(&[None]))),
        plan(false, true, true)
    );
    let configured_only = ConfigFacts { preprocessor: Slot::Held(true), output: Slot::Missing };
    assert_eq!(plan_config(&configured_only), plan(false, true, true));
}

#[test]
fn first_wrong_kind_is_the_error() {
    let wrong_everywhere = ConfigFacts { preprocessor: Slot::Wrong, output: Slot::Wrong };
    assert_eq!(plan_config(&wrong_everywhere), Err(InstallError::PreprocessorNotTable));
    let wrong_output = ConfigFacts { preprocessor: Slot::Missing, output: Slot::Wrong };
    assert_eq!(plan_config(&wrong_output), Err(InstallError::OutputNotTable));
    let wrong_html = ConfigFacts {
        preprocessor: Slot::Held(true),
        output: Slot::Held(OutputFacts { html: Slot::Wrong }),
    };
    assert_eq!(plan_config(&wrong_html), Err(InstallError::HtmlNotTable));
    assert_eq!(
        plan_config(&facts(Slot::Missing, Slot::Wrong, Slot::Wrong)),
        Err(InstallError::ScriptsNotArray)
    );
    assert_eq!(
        plan_config(&facts(Slot::Missing, list(&[]), Slot::Wrong)),
        Err(InstallError::StylesNotArray)
    );
}

#[test]
fn install_errors_in_words() {
    assert_eq!(InstallError::PreprocessorNotTable.message(), "preprocessor section is not a table");
    assert_eq!(InstallError::OutputNotTable.message(), "output section is not a table");
    assert_eq!(InstallError::HtmlNotTable.message(), "output.html section is not a table");
    assert_eq!(InstallError::ScriptsNotArray.message(), "additional-js is not an array");
    assert_eq!(InstallError::StylesNotArray.message(), "additional-css is not an array");
}
