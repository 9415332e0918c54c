//! The command-line arguments of each command, as plain values, and the
//! decisions `stash ls` takes from them before it reads the store.
use vstd::prelude::*;

use crate::dates::{date_mode_spec, normalize_date_mode, DateModeError};
use crate::lsview::LsLayout;
use crate::selection::{parse_meta_selection, selection_spec, strs, MetaSelection, SelectionError};
use crate::text::str_eq;

verus! {

/// Arguments of `stash push`.
pub struct PushArgs {
    pub attr: Vec<String>,
    pub print: String,
    pub file: Option<String>,
}

/// Arguments of `stash tee`.
pub struct TeeArgs {
    pub attr: Vec<String>,
    pub print: String,
    pub save_on_error: bool,
}

/// Arguments of `stash cat`.
pub struct CatArgs {
    pub refs: Vec<String>,
    pub attr: Vec<String>,
    pub pocket: Vec<String>,
    pub reverse: bool,
}

/// Arguments of `stash ls`.
pub struct LsArgs {
    pub id: String,
    pub attr: Vec<String>,
    pub attrs: Option<String>,
    pub number: usize,
    pub reverse: bool,
    pub json: bool,
    pub headers: bool,
    pub stripe: bool,
    pub date: Option<String>,
    pub size: Option<String>,
    pub name: bool,
    pub preview: bool,
    pub long: bool,
    pub chars: usize,
    pub color: String,
}

/// Arguments of `stash log`.
pub struct LogArgs {
    pub id: String,
    pub attr: Vec<String>,
    pub attrs: bool,
    pub number: usize,
    pub reverse: bool,
    pub json: bool,
    pub format: Option<String>,
    pub date: String,
    pub chars: usize,
    pub color: String,
}

/// Arguments of `stash attr`.
pub struct AttrArgs {
    pub reference: String,
    pub items: Vec<String>,
    pub separator: String,
    pub unset: Vec<String>,
    pub json: bool,
    pub preview: bool,
}

/// Arguments of `stash attrs`.
pub struct AttrsArgs {
    pub count: bool,
}

/// Arguments of `stash path`.
pub struct PathArgs {
    pub dir: bool,
    pub attr: bool,
    pub refs: Vec<String>,
}

/// Arguments of `stash rm`.
pub struct RmArgs {
    pub refs: Vec<String>,
    pub before: Option<String>,
    pub after: Option<String>,
    pub attr: Vec<String>,
    pub force: bool,
}

/// The shells completions are written for.
#[derive(Clone, Copy, Debug, PartialEq, Eq, Structural)]
pub enum CompletionShell {
    Bash,
    Fish,
    Zsh,
}

/// Arguments of `stash completion`.
pub struct CompletionArgs {
    pub shell: CompletionShell,
}

/// Whether `stash` without a subcommand acts as `tee` rather than `push`:
/// when no file is named and both standard input and standard output are
/// not terminals (the middle of a pipeline).
#[verifier::rlimit(50)]
pub fn smart_mode_uses_tee(has_file: bool, stdin_is_terminal: bool, stdout_is_terminal: bool) -> (r:
    bool)
    ensures
        r == (!has_file && !stdin_is_terminal && !stdout_is_terminal),
{
    !has_file && !stdin_is_terminal && !stdout_is_terminal
}

/// Whether colour is on for `--color VALUE`: `true` colours when standard
/// output is a terminal, `false` never; `None` for any other value.
pub open spec fn color_spec(value: Seq<char>, stdout_is_terminal: bool) -> Option<bool> {
    if value == "true"@ {
        Some(stdout_is_terminal)
    } else if value == "false"@ {
        Some(false)
    } else {
        None
    }
}

/// Whether colour is on (see [`color_spec`]).
#[verifier::rlimit(50)]
pub fn color_enabled(value: &str, stdout_is_terminal: bool) -> (r: Option<bool>)
    ensures
        r == color_spec(value@, stdout_is_terminal),
{
    if str_eq(value, "true") {
        Some(stdout_is_terminal)
    } else if str_eq(value, "false") {
        Some(false)
    } else {
        None
    }
}

/// How `ls` shows attributes.
#[derive(Clone, Copy, Debug, PartialEq, Eq, Structural)]
pub enum AttrsMode {
    /// Every attribute, inline.
    List,
    /// How many attributes each entry has.
    Count,
    /// `*` for an entry with attributes.
    Flag,
}

/// The mode `--attrs VALUE` names: `list`, `count` or `flag`; `Err` for any
/// other value.
pub open spec fn attrs_mode_spec(value: Option<Seq<char>>) -> Result<Option<AttrsMode>, ()> {
    match value {
        None => Ok(None),
        Some(v) => if v == "list"@ {
            Ok(Some(AttrsMode::List))
        } else if v == "count"@ {
            Ok(Some(AttrsMode::Count))
        } else if v == "flag"@ {
            Ok(Some(AttrsMode::Flag))
        } else {
            Err(())
        },
    }
}

/// The mode `--attrs VALUE` names (see [`attrs_mode_spec`]).
#[verifier::rlimit(50)]
pub fn parse_attrs_mode(value: Option<&str>) -> (r: Result<Option<AttrsMode>, ()>)
    ensures
        r == attrs_mode_spec(
            match value {
                Some(v) => Some(v@),
                None => None,
            },
        ),
{
    match value {
        None => Ok(None),
        Some(v) => if str_eq(v, "list") {
            Ok(Some(AttrsMode::List))
        } else if str_eq(v, "count") {
            Ok(Some(AttrsMode::Count))
        } else if str_eq(v, "flag") {
            Ok(Some(AttrsMode::Flag))
        } else {
            Err(())
        },
    }
}

/// Why `stash ls` refused its arguments.
#[derive(Clone, Copy, Debug, PartialEq, Eq, Structural)]
pub enum LsArgError {
    /// `--color` is neither `true` nor `false`.
    Color,
    /// `--attrs` names no known mode.
    AttrsMode,
    /// `--date` names no known mode.
    DateMode,
    /// An `--attr` value is malformed.
    Selection(SelectionError),
}

impl LsArgError {
    /// The message that reports this error.
    #[verifier::rlimit(50)]
    pub fn message(&self) -> (r: &'static str)
        ensures
            r@ == (match *self {
                LsArgError::Color => "--color must be true or false"@,
                LsArgError::AttrsMode => "--attrs must be list, count, or flag"@,
                LsArgError::DateMode => "--date must be iso, ago, or ls"@,
                LsArgError::Selection(e) => match e {
                    SelectionError::InvalidAttrValue => "--attr accepts name, +name, or ++name and is repeatable"@,
                    SelectionError::EmptyFilterDisplay => "--attr filter+display must be ++name"@,
                    SelectionError::EmptyFilter => "--attr filter must be +name"@,
                },
            }),
    {
        match self {
            LsArgError::Color => "--color must be true or false",
            LsArgError::AttrsMode => "--attrs must be list, count, or flag",
            LsArgError::DateMode => DateModeError::InvalidDateMode.message(),
            LsArgError::Selection(e) => e.message(),
        }
    }
}

/// The arguments of `ls` as values.
pub struct LsArgsView {
    pub attr: Seq<Seq<char>>,
    pub attrs: Option<Seq<char>>,
    pub headers: bool,
    pub stripe: bool,
    pub date: Option<Seq<char>>,
    pub size: Option<Seq<char>>,
    pub name: bool,
    pub preview: bool,
    pub long: bool,
    pub chars: usize,
    pub color: Seq<char>,
}

/// An optional string as a value.
pub open spec fn opt_view(o: Option<String>) -> Option<Seq<char>> {
    match o {
        Some(s) => Some(s@),
        None => None,
    }
}

impl View for LsArgs {
    type V = LsArgsView;

    open spec fn view(&self) -> LsArgsView {
        LsArgsView {
            attr: strs(self.attr@),
            attrs: opt_view(self.attrs),
            headers: self.headers,
            stripe: self.stripe,
            date: opt_view(self.date),
            size: opt_view(self.size),
            name: self.name,
            preview: self.preview,
            long: self.long,
            chars: self.chars,
            color: self.color@,
        }
    }
}

/// `o`, or `d` when `o` is `None` and `fill` holds.
pub open spec fn or_fill(o: Option<Seq<char>>, fill: bool, d: Seq<char>) -> Option<Seq<char>> {
    if fill && o is None {
        Some(d)
    } else {
        o
    }
}

/// What `ls` decided from its arguments, before reading the store.
pub struct LsDecision {
    /// The columns and how they are shown.
    pub layout: LsLayout,
    /// The date mode of the date column (`ls` when there is none).
    pub date_mode: Seq<char>,
    /// The preview length entries are first decorated with (0 when the
    /// preview is sized to the terminal later).
    pub preview_chars: nat,
    /// Only ids are printed, one per line.
    pub ids_only: bool,
    /// Every attribute is shown.
    pub show_all: bool,
}

/// What `ls` decides from its arguments: `--long` stands for `--date ls
/// --size human --preview --attrs flag` where those are not given; colour,
/// `--attrs` and `--date` are checked in that order, then the `--attr`
/// values; striping dims rows only with colour on and then turns the other
/// colours off; the preview is sized to the terminal when it is shown at
/// the default length of 80.
pub open spec fn ls_decision_spec(a: LsArgsView, tty: bool) -> Result<LsDecision, LsArgError> {
    let date = or_fill(a.date, a.long, "ls"@);
    let size = or_fill(a.size, a.long, "human"@);
    let attrs = or_fill(a.attrs, a.long, "flag"@);
    let preview = a.preview || a.long;
    match color_spec(a.color, tty) {
        None => Err(LsArgError::Color),
        Some(color) => match attrs_mode_spec(attrs) {
            Err(_) => Err(LsArgError::AttrsMode),
            Ok(mode) => {
                let date_ok = match date {
                    Some(d) => date_mode_spec(d) is Some,
                    None => true,
                };
                if !date_ok {
                    Err(LsArgError::DateMode)
                } else {
                    match selection_spec(a.attr) {
                        Err(e) => Err(LsArgError::Selection(e)),
                        Ok(sel) => {
                            let show_all = mode == Some(AttrsMode::List);
                            let layout = LsLayout {
                                has_size: size is Some,
                                use_bytes: size == Some("bytes"@),
                                has_date: date is Some,
                                show_count: mode == Some(AttrsMode::Count),
                                show_flag: mode == Some(AttrsMode::Flag),
                                show_name: a.name,
                                show_preview: preview,
                                show_all_meta: show_all,
                                headers: a.headers,
                                stripe: color && a.stripe,
                                style_color: color && !a.stripe,
                                auto_preview: preview && a.chars == 80,
                            };
                            let simple = !layout.has_date && !layout.has_size && !a.name && !preview
                                && !layout.show_count && !layout.show_flag && !show_all
                                && sel.0.len() == 0;
                            Ok(
                                LsDecision {
                                    layout,
                                    date_mode: match date {
                                        Some(d) => date_mode_spec(d).unwrap(),
                                        None => "ls"@,
                                    },
                                    preview_chars: if layout.auto_preview {
                                        0
                                    } else {
                                        a.chars as nat
                                    },
                                    ids_only: simple && !a.headers,
                                    show_all,
                                },
                            )
                        },
                    }
                }
            },
        },
    }
}

/// What `ls` decided from its arguments.
pub struct LsPlan {
    pub layout: LsLayout,
    pub selection: MetaSelection,
    pub date_mode: &'static str,
    pub preview_chars: usize,
    pub ids_only: bool,
}

/// The decision an `ls` plan carries.
pub open spec fn plan_decision(p: LsPlan) -> LsDecision {
    LsDecision {
        layout: p.layout,
        date_mode: p.date_mode@,
        preview_chars: p.preview_chars as nat,
        ids_only: p.ids_only,
        show_all: p.selection.show_all,
    }
}

/// `o`, or `d` when `o` is `None` and `fill` holds.
#[verifier::rlimit(50)]
fn or_fill_str(o: &Option<String>, fill: bool, d: &str) -> (r: Option<String>)
    ensures
        opt_view(r) == or_fill(opt_view(*o), fill, d@),
{
    match o {
        Some(s) => Some(s.clone()),
        None => if fill {
            Some(d.to_owned())
        } else {
            None
        },
    }
}

/// Takes `ls`'s decisions from its arguments (see [`ls_decision_spec`]);
/// `stdout_is_terminal` tells whether standard output is a terminal.
#[verifier::rlimit(50)]
pub fn ls_plan(args: &LsArgs, stdout_is_terminal: bool) -> (r: Result<LsPlan, LsArgError>)
    ensures
        match r {
            Ok(p) => ls_decision_spec(args@, stdout_is_terminal) == Ok::<LsDecision, LsArgError>(
                plan_decision(p),
            ) && selection_spec(args@.attr) == Ok::<
                (Seq<Seq<char>>, Seq<Seq<char>>),
                SelectionError,
            >((strs(p.selection.display_tags@), strs(p.selection.filter_tags@))),
            Err(e) => ls_decision_spec(args@, stdout_is_terminal) == Err::<LsDecision, LsArgError>(e),
        },
{
    proof {
        reveal_strlit("ls");
        reveal_strlit("human");
        reveal_strlit("flag");
        reveal_strlit("bytes");
    }
    let date = or_fill_str(&args.date, args.long, "ls");
    let size = or_fill_str(&args.size, args.long, "human");
    let attrs = or_fill_str(&args.attrs, args.long, "flag");
    let preview = args.preview || args.long;
    let color = match color_enabled(args.color.as_str(), stdout_is_terminal) {
        Some(c) => c,
        None => return Err(LsArgError::Color),
    };
    let attrs_arg: Option<&str> = match &attrs {
        Some(s) => Some(s.as_str()),
        None => None,
    };
    let mode = match parse_attrs_mode(attrs_arg) {
        Ok(m) => m,
        Err(_) => return Err(LsArgError::AttrsMode),
    };
    let date_mode: &'static str = match &date {
        Some(d) => match normalize_date_mode(d.as_str()) {
            Ok(m) => m,
            Err(_) => return Err(LsArgError::DateMode),
        },
        None => "ls",
    };
    let show_all = mode == Some(AttrsMode::List);
    let sel = match parse_meta_selection(&args.attr, show_all) {
        Ok(s) => s,
        Err(e) => return Err(LsArgError::Selection(e)),
    };
    let use_bytes = match &size {
        Some(s) => str_eq(s.as_str(), "bytes"),
        None => false,
    };
    let layout = LsLayout {
        has_size: size.is_some(),
        use_bytes,
        has_date: date.is_some(),
        show_count: mode == Some(AttrsMode::Count),
        show_flag: mode == Some(AttrsMode::Flag),
        show_name: args.name,
        show_preview: preview,
        show_all_meta: show_all,
        headers: args.headers,
        stripe: color && args.stripe,
        style_color: color && !args.stripe,
        auto_preview: preview && args.chars == 80,
    };
    let simple = !layout.has_date && !layout.has_size && !args.name && !preview && !layout.show_count
        && !layout.show_flag && !show_all && sel.display_tags.len() == 0;
    let preview_chars: usize = if layout.auto_preview {
        0
    } else {
        args.chars
    };
    Ok(LsPlan { layout, selection: sel, date_mode, preview_chars, ids_only: simple && !args.headers })
}

} // verus!
