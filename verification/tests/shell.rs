//! Nothing here can run a shell, so these assert on the text. They catch a snippet that lost a
//! binding or drifted from the others, not one that no longer parses.

use padloper::shell::{Shell, BASH_INIT, FISH_INIT, ZSH_INIT};

#[test]
fn every_snippet_records_and_binds_the_searcher() {
    for shell in [Shell::Bash, Shell::Zsh, Shell::Fish] {
        let snippet = shell.snippet();
        assert!(snippet.contains("padloper add"), "{shell:?} lacks the record call");
        assert!(snippet.contains("padloper search"), "{shell:?} lacks the search call");
        assert!(snippet.contains("PADLOPER_SESSION"), "{shell:?} lacks the session id");
    }
}

#[test]
fn every_snippet_binds_ctrl_r() {
    assert!(BASH_INIT.contains(r#"bind '"\C-r": "\C-x\C-o\C-x\C-p"'"#));
    assert!(ZSH_INIT.contains("bindkey '^r' __padloper_search"));
    assert!(FISH_INIT.contains(r"bind \cr __padloper_search"));
}

// Terminals send the up arrow as either escape sequence depending on cursor key mode, so bash and
// zsh have to bind both.
#[test]
fn every_snippet_binds_the_up_arrow() {
    assert!(BASH_INIT.contains(r#"bind '"\e[A": "\C-x\C-o\C-x\C-p"'"#));
    assert!(BASH_INIT.contains(r#"bind '"\eOA": "\C-x\C-o\C-x\C-p"'"#));
    assert!(ZSH_INIT.contains("bindkey '^[[A' __padloper_search"));
    assert!(ZSH_INIT.contains("bindkey '^[OA' __padloper_search"));
    assert!(FISH_INIT.contains("bind up __padloper_search"));
}

// The status carries the action, so no snippet may look for a marker in the command.
#[test]
fn every_snippet_handles_search_statuses_without_a_marker() {
    for shell in [Shell::Bash, Shell::Zsh, Shell::Fish] {
        let snippet = shell.snippet();
        assert!(snippet.contains("action"), "{shell:?} lacks the status");
        assert!(snippet.contains("10"), "{shell:?} lacks insert");
        assert!(!snippet.contains("__padloper_run__:"));
    }
}

// A snippet is eval'd under whatever locale the user has. Non-ascii in one could be mangled before
// the shell parses it.
#[test]
fn every_snippet_is_plain_ascii() {
    for shell in [Shell::Bash, Shell::Zsh, Shell::Fish] {
        assert!(shell.snippet().is_ascii(), "{shell:?} contains non-ascii");
    }
}

#[test]
fn each_shell_has_its_own_snippet() {
    assert_eq!(Shell::Bash.snippet(), BASH_INIT);
    assert_eq!(Shell::Zsh.snippet(), ZSH_INIT);
    assert_eq!(Shell::Fish.snippet(), FISH_INIT);
    assert!(BASH_INIT.starts_with("if [ -z \"${PADLOPER_SESSION:-}\" ]; then\n"));
    assert!(ZSH_INIT.starts_with("if [[ -z \"${PADLOPER_SESSION:-}\" ]]; then\n"));
    assert!(FISH_INIT.starts_with("if not set -q PADLOPER_SESSION\n"));
}
