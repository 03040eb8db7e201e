//! Shell integration snippets printed by `padloper init`.
//!
//! Each snippet does the same three things in its own dialect: set a session id, record every
//! command from a prompt hook, and bind ctrl+r and the up arrow to the picker. There is no shared
//! abstraction because the three shells agree on none of the mechanics, and hiding the ordering
//! rules behind a common shape would not remove them.
//!
//! Every widget reads the same protocol from `padloper search`: stdout is the command, and the exit
//! status is the action. 0 runs it, 10 puts it on the prompt, anything else leaves the prompt
//! alone. See [`crate::app::emit_search`].
//!
//! These strings only ever get eval'd, so a syntax error surfaces as a broken interactive shell.

use vstd::prelude::*;

verus! {

/// The shells `padloper init` knows how to write for.
#[derive(Clone, Copy, Debug)]
pub enum Shell {
    Bash,
    Zsh,
    Fish,
}

impl Shell {
    /// The snippet to eval from a shell config file.
    pub fn snippet(self) -> (text: &'static str)
        ensures
            text@ == match self {
                Shell::Bash => BASH_INIT@,
                Shell::Zsh => ZSH_INIT@,
                Shell::Fish => FISH_INIT@,
            },
    {
        match self {
            Shell::Bash => BASH_INIT,
            Shell::Zsh => ZSH_INIT,
            Shell::Fish => FISH_INIT,
        }
    }
}

// Recording keys off the history entry number, not the command text, so a
// repeated command still refreshes its timestamp while an empty prompt Enter
// records nothing.
// Prompt and editor contracts:
// https://www.gnu.org/software/bash/manual/html_node/Bash-Variables.html
// https://www.gnu.org/software/bash/manual/html_node/Bash-Builtins.html
pub const BASH_INIT: &'static str = r#"if [ -z "${PADLOPER_SESSION:-}" ]; then
    export PADLOPER_SESSION=$(printf '%04x%04x%04x%04x' $RANDOM $RANDOM $RANDOM $RANDOM)
fi

# Skip whatever the history file already held when the shell started.
read -r __padloper_last _ <<< "$(HISTTIMEFORMAT='' builtin history 1)"

__padloper_record() {
    local exit=$?
    local entry num cmd
    entry=$(HISTTIMEFORMAT='' builtin history 1) || return $exit
    read -r num _ <<< "$entry"
    if [ -z "$num" ] || [ "$num" = "$__padloper_last" ]; then
        return $exit
    fi
    __padloper_last=$num
    cmd=$(sed '1s/^ *[0-9]* *//' <<< "$entry")
    # Errors are swallowed and the status is passed through untouched. A
    # broken db must not print at every prompt or change what $? reports.
    padloper add --exit "$exit" -- "$cmd" 2>/dev/null
    return $exit
}
PROMPT_COMMAND="__padloper_record${PROMPT_COMMAND:+;$PROMPT_COMMAND}"

# bind -x widgets cannot call accept-line, so ctrl+r runs a two-key macro.
# The widget decides what the second key does by rebinding it first.
__padloper_noop() { :; }

__padloper_search() {
    local out action
    bind -x '"\C-x\C-p": __padloper_noop'
    out=$(padloper search -- "$READLINE_LINE")
    action=$?
    case $action in
        0)
            if [ -n "$out" ]; then
                READLINE_LINE=$out
                READLINE_POINT=${#READLINE_LINE}
                bind '"\C-x\C-p": accept-line'
            fi
            ;;
        10)
            if [ -n "$out" ]; then
                READLINE_LINE=$out
                READLINE_POINT=${#READLINE_LINE}
            fi
            ;;
    esac
}
bind -x '"\C-x\C-o": __padloper_search'
bind '"\C-r": "\C-x\C-o\C-x\C-p"'
# Up arrow too, in both cursor modes.
bind '"\e[A": "\C-x\C-o\C-x\C-p"'
bind '"\eOA": "\C-x\C-o\C-x\C-p"'
"#;

// preexec sees the command, precmd sees the exit status. Recording spans
// both so each run lands with the right status, and an empty prompt Enter
// never fires preexec.
// Hook and editor contracts:
// https://zsh.sourceforge.io/Doc/Release/Functions.html#Hook-Functions
// https://zsh.sourceforge.io/Doc/Release/User-Contributions.html#Manipulating-Hook-Functions
// https://zsh.sourceforge.io/Doc/Release/Zsh-Line-Editor.html
pub const ZSH_INIT: &'static str = r#"if [[ -z "${PADLOPER_SESSION:-}" ]]; then
    export PADLOPER_SESSION=$(printf '%04x%04x%04x%04x' $RANDOM $RANDOM $RANDOM $RANDOM)
fi

autoload -Uz add-zsh-hook

__padloper_preexec() {
    __padloper_cmd=$1
}
add-zsh-hook preexec __padloper_preexec

__padloper_record() {
    local exit=$?
    if [[ -n "$__padloper_cmd" ]]; then
        padloper add --exit "$exit" -- "$__padloper_cmd" 2>/dev/null
        __padloper_cmd=""
    fi
}
add-zsh-hook precmd __padloper_record

__padloper_search() {
    local out action
    out=$(padloper search -- "$BUFFER")
    action=$?
    case $action in
        0)
            if [[ -n "$out" ]]; then
                BUFFER=$out
                CURSOR=${#BUFFER}
                zle accept-line
                return
            fi
            ;;
        10)
            if [[ -n "$out" ]]; then
                BUFFER=$out
                CURSOR=${#BUFFER}
            fi
            ;;
    esac
    # The picker left the screen; redraw the prompt under it.
    zle reset-prompt
}
zle -N __padloper_search
bindkey '^r' __padloper_search
bindkey '^[[A' __padloper_search
bindkey '^[OA' __padloper_search
"#;

// Event, editor, and binding contracts:
// https://fishshell.com/docs/current/language.html#event-handlers
// https://fishshell.com/docs/current/cmds/commandline.html
// https://fishshell.com/docs/current/cmds/bind.html
pub const FISH_INIT: &'static str = r#"if not set -q PADLOPER_SESSION
    set -gx PADLOPER_SESSION (printf '%04x%04x%04x%04x' (random) (random) (random) (random))
end

function __padloper_record --on-event fish_postexec
    set -l exit_code $status
    if test -n "$argv[1]"
        padloper add --exit $exit_code -- $argv[1] 2>/dev/null
    end
end

function __padloper_search
    # Fish splits command output on newlines, so a multiline command comes
    # back as several elements and has to be joined again.
    set -l lines (padloper search -- (commandline))
    set -l action $status
    set -l out (string join \n -- $lines)
    switch $action
        case 0
            if test -n "$out"
                commandline -r -- $out
                commandline -f execute
                return
            end
        case 10
            if test -n "$out"
                commandline -r -- $out
            end
    end
    commandline -f repaint
end
bind \cr __padloper_search
bind up __padloper_search
"#;

// ---------------------------------------------------------------------------------------------
// What the shells get to evaluate
// ---------------------------------------------------------------------------------------------

/// In bash the record hook runs first at every prompt and passes the status through, and the widget
/// accepts the line on status 0, leaves it on the prompt on 10, and does nothing otherwise.
pub proof fn bash_records_at_the_prompt_and_acts_on_the_status()
    ensures
        BASH_INIT@ == r#"if [ -z "${PADLOPER_SESSION:-}" ]; then
    export PADLOPER_SESSION=$(printf '%04x%04x%04x%04x' $RANDOM $RANDOM $RANDOM $RANDOM)
fi

# Skip whatever the history file already held when the shell started.
read -r __padloper_last _ <<< "$(HISTTIMEFORMAT='' builtin history 1)"

__padloper_record() {
    local exit=$?
    local entry num cmd
    entry=$(HISTTIMEFORMAT='' builtin history 1) || return $exit
    read -r num _ <<< "$entry"
    if [ -z "$num" ] || [ "$num" = "$__padloper_last" ]; then
        return $exit
    fi
    __padloper_last=$num
    cmd=$(sed '1s/^ *[0-9]* *//' <<< "$entry")
    # Errors are swallowed and the status is passed through untouched. A
    # broken db must not print at every prompt or change what $? reports.
    padloper add --exit "$exit" -- "$cmd" 2>/dev/null
    return $exit
}
PROMPT_COMMAND="__padloper_record${PROMPT_COMMAND:+;$PROMPT_COMMAND}"

# bind -x widgets cannot call accept-line, so ctrl+r runs a two-key macro.
# The widget decides what the second key does by rebinding it first.
__padloper_noop() { :; }

__padloper_search() {
    local out action
    bind -x '"\C-x\C-p": __padloper_noop'
    out=$(padloper search -- "$READLINE_LINE")
    action=$?
    case $action in
        0)
            if [ -n "$out" ]; then
                READLINE_LINE=$out
                READLINE_POINT=${#READLINE_LINE}
                bind '"\C-x\C-p": accept-line'
            fi
            ;;
        10)
            if [ -n "$out" ]; then
                READLINE_LINE=$out
                READLINE_POINT=${#READLINE_LINE}
            fi
            ;;
    esac
}
bind -x '"\C-x\C-o": __padloper_search'
bind '"\C-r": "\C-x\C-o\C-x\C-p"'
# Up arrow too, in both cursor modes.
bind '"\e[A": "\C-x\C-o\C-x\C-p"'
bind '"\eOA": "\C-x\C-o\C-x\C-p"'
"#@,
{
}

/// In zsh the command is kept before it runs and recorded after, and the widget accepts the line on
/// status 0, leaves it on the prompt on 10, and only redraws otherwise.
pub proof fn zsh_records_after_the_command_and_acts_on_the_status()
    ensures
        ZSH_INIT@ == r#"if [[ -z "${PADLOPER_SESSION:-}" ]]; then
    export PADLOPER_SESSION=$(printf '%04x%04x%04x%04x' $RANDOM $RANDOM $RANDOM $RANDOM)
fi

autoload -Uz add-zsh-hook

__padloper_preexec() {
    __padloper_cmd=$1
}
add-zsh-hook preexec __padloper_preexec

__padloper_record() {
    local exit=$?
    if [[ -n "$__padloper_cmd" ]]; then
        padloper add --exit "$exit" -- "$__padloper_cmd" 2>/dev/null
        __padloper_cmd=""
    fi
}
add-zsh-hook precmd __padloper_record

__padloper_search() {
    local out action
    out=$(padloper search -- "$BUFFER")
    action=$?
    case $action in
        0)
            if [[ -n "$out" ]]; then
                BUFFER=$out
                CURSOR=${#BUFFER}
                zle accept-line
                return
            fi
            ;;
        10)
            if [[ -n "$out" ]]; then
                BUFFER=$out
                CURSOR=${#BUFFER}
            fi
            ;;
    esac
    # The picker left the screen; redraw the prompt under it.
    zle reset-prompt
}
zle -N __padloper_search
bindkey '^r' __padloper_search
bindkey '^[[A' __padloper_search
bindkey '^[OA' __padloper_search
"#@,
{
}

/// In fish the command is recorded once it has run, and the widget executes the line on status 0,
/// leaves it on the prompt on 10, and only repaints otherwise.
pub proof fn fish_records_after_the_command_and_acts_on_the_status()
    ensures
        FISH_INIT@ == r#"if not set -q PADLOPER_SESSION
    set -gx PADLOPER_SESSION (printf '%04x%04x%04x%04x' (random) (random) (random) (random))
end

function __padloper_record --on-event fish_postexec
    set -l exit_code $status
    if test -n "$argv[1]"
        padloper add --exit $exit_code -- $argv[1] 2>/dev/null
    end
end

function __padloper_search
    # Fish splits command output on newlines, so a multiline command comes
    # back as several elements and has to be joined again.
    set -l lines (padloper search -- (commandline))
    set -l action $status
    set -l out (string join \n -- $lines)
    switch $action
        case 0
            if test -n "$out"
                commandline -r -- $out
                commandline -f execute
                return
            end
        case 10
            if test -n "$out"
                commandline -r -- $out
            end
    end
    commandline -f repaint
end
bind \cr __padloper_search
bind up __padloper_search
"#@,
{
}

} // verus!
