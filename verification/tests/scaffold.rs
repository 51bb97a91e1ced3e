use smllm::cli::json_line;
use smllm::scaffold::{check_id, created_text, exists_error, init_json, init_path, init_text, new_paths};

#[test]
fn machine_ids_are_letters_digits_dash_and_underscore() {
    assert_eq!(check_id("dev"), Ok(()));
    assert_eq!(check_id("Issue_flow-2"), Ok(()));
    assert_eq!(check_id("bad id"), Err("id \"bad id\" must be letters, digits, _ and -".to_string()));
    assert_eq!(check_id(""), Err("id \"\" must be letters, digits, _ and -".to_string()));
    assert_eq!(check_id("é"), Err("id \"é\" must be letters, digits, _ and -".to_string()));
    assert_eq!(check_id("a\"b"), Err("id \"a\\\"b\" must be letters, digits, _ and -".to_string()));
}

#[test]
fn a_new_machine_goes_beside_its_config() {
    assert_eq!(
        new_paths("/w", None, Some("/w/.smllm/config.toml"), None, "dev"),
        Ok(("/w/.smllm/config.toml".to_string(), "/w/.smllm/dev.smllm.yaml".to_string()))
    );
    assert_eq!(
        new_paths("/w", Some("cfg/c.toml"), Some("/w/.smllm/config.toml"), None, "dev"),
        Ok(("/w/cfg/c.toml".to_string(), "/w/cfg/dev.smllm.yaml".to_string()))
    );
    assert_eq!(
        new_paths("/w", None, Some("/w/.smllm/config.toml"), Some("machines"), "dev"),
        Ok(("/w/.smllm/config.toml".to_string(), "/w/machines/dev.smllm.yaml".to_string()))
    );
    assert_eq!(
        new_paths("/w", None, None, None, "dev"),
        Err("no .smllm/config.toml here or above; run smllm init first".to_string())
    );
}

#[test]
fn what_new_and_init_say() {
    assert_eq!(exists_error(".smllm/dev.smllm.yaml"), ".smllm/dev.smllm.yaml already exists");
    assert_eq!(
        created_text(".smllm/dev.smllm.yaml", ".smllm/config.toml"),
        "created .smllm/dev.smllm.yaml and listed it in .smllm/config.toml\n"
    );
    assert_eq!(init_path(true, "/home/u/.config/smllm", "/w"), "/home/u/.config/smllm/config.toml");
    assert_eq!(init_path(false, "/home/u/.config/smllm", "/w"), "/w/.smllm/config.toml");
    assert_eq!(init_text(".smllm/config.toml", true), "created .smllm/config.toml\n");
    assert_eq!(
        init_text(".smllm/config.toml", false),
        ".smllm/config.toml already exists; nothing changed\n"
    );
    assert_eq!(
        json_line(&init_json("/w/.smllm/config.toml", true)),
        "{\"path\":\"/w/.smllm/config.toml\",\"created\":true}\n"
    );
}
