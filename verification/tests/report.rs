use markov_chains_bot::models::MARKOV_CHAINS_VERSION;
use markov_chains_bot::numfmt::{pretty_bytes, pretty_seconds};
use markov_chains_bot::report::{model_info, model_line, model_list, system_report, ModelInfo, SystemReport};

#[test]
fn system_report_layout() {
    let r = SystemReport {
        name: Some("Linux".to_string()),
        kernel: None,
        os_version: Some("12".to_string()),
        host_name: None,
        uptime: 90061,
        cpus: 8,
        used_memory: 3 * 1024 * 1024 * 1024,
        total_memory: 16 * 1024 * 1024 * 1024,
        used_swap: 0,
        total_swap: 2048,
        bot_version: "0.1.0".to_string(),
    };
    let name = format!("**Name:**\t`{}`", "Linux");
    let kernel = format!("**Kernel:**\t`{}`", "N/A");
    let version = format!("**Version:**\t`{}`", "12");
    let hostname = format!("**Hostname:**\t`{}`", "N/A");
    let uptime = format!("**Uptime:**\t`{}`", pretty_seconds(90061));
    let cpus = format!("**CPUs:**\t`{}`", 8);
    let memory = format!("**Memory:**\t`{}`\t**/**\t`{}`", pretty_bytes(3 * 1024 * 1024 * 1024), pretty_bytes(16 * 1024 * 1024 * 1024));
    let swap = format!("**Swap:**\t`{}`\t**/**\t`{}`", pretty_bytes(0), pretty_bytes(2048));
    let bot = format!("**markov-chains-bot:**\t`{}`", "0.1.0");
    let markov = format!("**markov-chains:**\t`{}`", MARKOV_CHAINS_VERSION);
    let expected = format!(
        "## System\n- {}\n- {}\n- {}\n- {}\n- {}\n- {}\n- {}\n- {}\n## Package\n- {}\n- {}",
        name, kernel, version, hostname, uptime, cpus, memory, swap, bot, markov
    );
    assert_eq!(system_report(&r), expected);
    assert!(system_report(&r).contains("**Uptime:**\t`1.04 D`"));
    assert!(system_report(&r).contains("`3.00 GB`\t**/**\t`16.00 GB`"));
}

#[test]
fn model_lines_and_list() {
    assert_eq!(model_line("kleden4", 2048), "**Name:**\t`kleden4`\t**Size:**\t`2.00 KB`");
    assert_eq!(model_line("old.model.model", 10), "**Name:**\t`old`\t**Size:**\t`10 B`");
    assert_eq!(model_line(".model", 10), "**Name:**\t``\t**Size:**\t`10 B`");
    assert_eq!(model_line("a.modelx", 10), "**Name:**\t`a.modelx`\t**Size:**\t`10 B`");
    let lines = vec!["one".to_string(), "two".to_string()];
    assert_eq!(model_list(&lines), format!("## Available models:\n- {}", lines.join("\n- ")));
    assert_eq!(model_list(&vec![]), "## Available models:\n- ");
}

#[test]
fn model_info_layout() {
    let m = ModelInfo {
        headers: vec![("name".to_string(), "kleden4".to_string()), ("version".to_string(), "1.4.4".to_string())],
        total_tokens: 1234,
        trigram_chains: None,
        bigram_chains: Some(55),
        unigram_chains: 66,
        avg_trigram_paths: None,
        avg_bigram_paths: Some("1.5000".to_string()),
        avg_unigram_paths: "2.2500".to_string(),
        trigram_variety: None,
        bigram_variety: Some("10.0000%".to_string()),
        unigram_variety: "20.0000%".to_string(),
    };
    let expected = "## Headers
- **name:**\t`kleden4`
- **version:**\t`1.4.4`
## Model Info
- **Total Tokens:**\t`1234`
- **Chains:**\t`N/A`\t/\t`55`\t/\t`66`
- **Avg Paths:**\t`N/A`\t/\t`1.5000`\t/\t`2.2500`
- **Variety:**\t`N/A`\t/\t`10.0000%`\t/\t`20.0000%`";
    assert_eq!(model_info(&m), expected);
}
