use docli_cli::agents::Vendor;
use docli_cli::hooks::ConfigRead;
use docli_cli::instructions::agents_md_written;
use docli_cli::instructions::block;
use docli_cli::instructions::bridge_done;
use docli_cli::instructions::consent_summary;
use docli_cli::instructions::install_agents_md;
use docli_cli::instructions::install_bridge;
use docli_cli::instructions::merged_agents_md;
use docli_cli::instructions::AgentsMd;
use docli_cli::instructions::AgentsStep;
use docli_cli::instructions::BridgeOutcome;
use docli_cli::instructions::BridgeStep;
use docli_cli::instructions::AGENTS_FRAGMENT;
use docli_cli::instructions::BEGIN;
use docli_cli::instructions::END;
use docli_cli::report::Notice;

fn vendor() -> Vendor {
    Vendor {
        key: "claude_code",
        name: "Agent",
        display: "Agent",
        dir: ".agent",
        skill_dir: ".agent/skills/docli",
        settings: ".agent/settings.json",
        instructions: "AGENT.md",
    }
}

fn written(a: AgentsMd) -> String {
    match a {
        AgentsMd::Write(s) => s,
        other => panic!("expected a write, got {other:?}"),
    }
}

#[test]
fn the_agents_section_is_replaced_in_place_not_appended() {
    let mine = "# Agents\n\nRun the tests before you commit.\n";
    let first = written(merged_agents_md(Some(mine)));
    assert!(first.starts_with(mine), "the user's prose comes first");
    assert_eq!(first.matches(BEGIN).count(), 1);
    assert_eq!(merged_agents_md(Some(&first)), AgentsMd::Current);
    let stale = format!("{mine}\n{BEGIN}\nold text\n{END}\n\nAfterwards.\n");
    let out = written(merged_agents_md(Some(&stale)));
    assert_eq!(out.matches(BEGIN).count(), 1, "{out}");
    assert!(!out.contains("old text"), "{out}");
    assert!(
        out.contains("Run the tests"),
        "prose before survives: {out}"
    );
    assert!(out.contains("Afterwards."), "prose after survives: {out}");
}

#[test]
fn a_hand_written_docli_section_is_left_alone() {
    let mine = "# Agents\n\nThe docli mirror is read-only; ask me before touching it.\n";
    assert_eq!(merged_agents_md(Some(mine)), AgentsMd::HandWritten);
}

#[test]
fn the_fragment_states_the_rule_and_names_the_alternative() {
    assert!(AGENTS_FRAGMENT.contains("read-only"));
    assert!(AGENTS_FRAGMENT.contains("edit_note"));
    assert!(AGENTS_FRAGMENT.contains("docli sync --check"));
    assert!(
        !AGENTS_FRAGMENT.contains("docli will refuse"),
        "enforcement language belongs only where a hook was actually written"
    );
}

#[test]
fn a_fresh_file_is_the_section_alone() {
    assert_eq!(written(merged_agents_md(None)), block());
    match install_agents_md(&ConfigRead::Missing) {
        AgentsStep::Write { body: text, .. } => {
            assert!(text.contains(BEGIN) && text.contains(END), "{text}");
            assert!(text.contains("docli sync"), "{text}");
        }
        other => panic!("{other:?}"),
    }
}

#[test]
fn a_file_that_cannot_be_read_is_left_alone() {
    match install_agents_md(&ConfigRead::Unreadable("denied".into())) {
        AgentsStep::Stop(Notice::Warn(w)) => {
            assert!(w.starts_with("AGENTS.md could not be read (denied)"), "{w}");
            assert!(w.contains(&block()), "{w}");
        }
        other => panic!("{other:?}"),
    }
    assert_eq!(
        agents_md_written(false, None),
        (true, Notice::Done("wrote AGENTS.md".into()))
    );
    assert!(!agents_md_written(false, Some("full")).0);
}

#[test]
fn an_existing_bridge_file_is_never_written() {
    match install_bridge(vendor(), true, true) {
        BridgeStep::Say(said) => assert!(!said.is_empty()),
        other => panic!("{other:?}"),
    }
    match install_bridge(vendor(), false, true) {
        BridgeStep::Create(text) => assert_eq!(text, "@AGENTS.md\n"),
        other => panic!("{other:?}"),
    }
    assert!(matches!(
        install_bridge(vendor(), false, false),
        BridgeStep::Say(_)
    ));
    assert_eq!(
        bridge_done(vendor(), &BridgeOutcome::Written),
        vec![Notice::Done("wrote AGENT.md (it imports AGENTS.md)".into())]
    );
}

#[test]
fn what_will_be_written_is_said_first() {
    let fresh = consent_summary(vendor(), &ConfigRead::Missing, false);
    assert_eq!(fresh.len(), 2);
    let denied = consent_summary(vendor(), &ConfigRead::Unreadable("x".into()), false);
    assert!(denied[0].contains("NOT touched"), "{denied:?}");
    assert!(denied[1].contains("NOT created"), "{denied:?}");
}

#[test]
fn running_again_changes_nothing() {
    let texts = [
        None,
        Some(""),
        Some("\n\n"),
        Some("# Agents\n\nRun the tests."),
        Some("<!-- a remark --><!-- docli:begin -->\nold\n<!-- docli:end -->, and more"),
        Some("<!-- docli:begin <!-- docli:begin --><!-- docli:end --><!-- docli:end -->"),
    ];
    for text in texts {
        let out = written(merged_agents_md(text));
        assert_eq!(merged_agents_md(Some(&out)), AgentsMd::Current, "{out}");
    }
}

/// A project directory with its two instruction files.
#[derive(Default)]
struct Files {
    agents: Option<String>,
    bridge: Option<String>,
    /// The bridge is a link to a file that does not exist.
    bridge_dangles: bool,
}

/// One installation, step by step.
fn install(f: &mut Files) {
    let read = match &f.agents {
        Some(t) => ConfigRead::Text(t.clone()),
        None => ConfigRead::Missing,
    };
    let have_section = match install_agents_md(&read) {
        AgentsStep::Stop(_) => return,
        AgentsStep::Write { body, had } => {
            f.agents = Some(body);
            agents_md_written(had, None).0
        }
        AgentsStep::Settled { have_section, .. } => have_section,
    };
    let there = f.bridge.is_some() || f.bridge_dangles;
    if let BridgeStep::Create(text) = install_bridge(vendor(), there, have_section) {
        f.bridge = Some(text);
    }
}

#[test]
fn a_fresh_project_gets_both_files() {
    let mut f = Files::default();
    install(&mut f);
    let agents = f.agents.unwrap();
    assert!(agents.contains(BEGIN) && agents.contains(END), "{agents}");
    assert!(agents.contains("docli sync"), "{agents}");
    assert_eq!(f.bridge.unwrap(), "@AGENTS.md\n");
}

#[test]
fn an_existing_claude_md_is_never_modified() {
    let mine = "# My project\n\nCarefully tuned instructions.\n";
    let mut f = Files {
        bridge: Some(mine.into()),
        ..Files::default()
    };
    install(&mut f);
    assert_eq!(f.bridge.unwrap(), mine, "not one byte");
    assert!(f.agents.is_some());
}

#[test]
fn a_dangling_claude_md_symlink_is_not_a_missing_file() {
    let mut f = Files {
        bridge_dangles: true,
        ..Files::default()
    };
    install(&mut f);
    assert!(f.bridge.is_none(), "the referent must not be conjured up");
}

#[test]
fn an_already_current_agents_md_still_gets_the_claude_bridge() {
    let mut f = Files::default();
    install(&mut f);
    f.bridge = None;
    install(&mut f);
    assert_eq!(
        f.bridge.unwrap(),
        "@AGENTS.md\n",
        "a current AGENTS.md is not a hand-written one"
    );
}
