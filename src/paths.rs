//! Where the program keeps its files, under the XDG base directories.
use vstd::prelude::*;
use crate::history::{join_path, join_path_str};

verus! {

/// The XDG directory: the variable's value when set, else `home` joined
/// with the fallback path.
pub open spec fn xdg_dir(var: Option<Seq<char>>, home: Option<Seq<char>>, fallback: Seq<char>) -> Option<Seq<char>> {
    match var {
        Some(v) => Some(v),
        None => match home {
            Some(h) => Some(join_path(h, fallback)),
            None => None,
        },
    }
}

pub open spec fn opt_view(o: Option<&str>) -> Option<Seq<char>> {
    match o {
        Some(s) => Some(s@),
        None => None,
    }
}

fn xdg_dir_exec(var: Option<&str>, home: Option<&str>, fallback: &str) -> (r: Option<String>)
    ensures
        match r {
            Some(s) => xdg_dir(opt_view(var), opt_view(home), fallback@) == Some(s@),
            None => xdg_dir(opt_view(var), opt_view(home), fallback@) is None,
        },
{
    match var {
        Some(v) => Some(String::from_str(v)),
        None => match home {
            Some(h) => Some(join_path_str(h, fallback)),
            None => None,
        },
    }
}

/// `$XDG_STATE_HOME`, else `$HOME/.local/state`; `None` when neither is set.
pub fn state_home(xdg_state_home: Option<&str>, home: Option<&str>) -> (r: Option<String>)
    ensures
        match r {
            Some(s) => xdg_dir(opt_view(xdg_state_home), opt_view(home), seq!['.', 'l', 'o', 'c', 'a', 'l', '/', 's', 't', 'a', 't', 'e']) == Some(s@),
            None => xdg_dir(opt_view(xdg_state_home), opt_view(home), seq!['.', 'l', 'o', 'c', 'a', 'l', '/', 's', 't', 'a', 't', 'e']) is None,
        },
{
    proof { reveal_strlit(".local/state"); }
    let f = ".local/state";
    assert(f@ =~= seq!['.', 'l', 'o', 'c', 'a', 'l', '/', 's', 't', 'a', 't', 'e']);
    xdg_dir_exec(xdg_state_home, home, f)
}

/// `$XDG_CONFIG_HOME`, else `$HOME/.config`; `None` when neither is set.
pub fn config_home(xdg_config_home: Option<&str>, home: Option<&str>) -> (r: Option<String>)
    ensures
        match r {
            Some(s) => xdg_dir(opt_view(xdg_config_home), opt_view(home), seq!['.', 'c', 'o', 'n', 'f', 'i', 'g']) == Some(s@),
            None => xdg_dir(opt_view(xdg_config_home), opt_view(home), seq!['.', 'c', 'o', 'n', 'f', 'i', 'g']) is None,
        },
{
    proof { reveal_strlit(".config"); }
    let f = ".config";
    assert(f@ =~= seq!['.', 'c', 'o', 'n', 'f', 'i', 'g']);
    xdg_dir_exec(xdg_config_home, home, f)
}

pub open spec fn app_dir_name() -> Seq<char> {
    seq!['m', 'u', 'x']
}

fn app_dir(base: &str) -> (r: String)
    ensures
        r@ == join_path(base@, app_dir_name()),
{
    proof { reveal_strlit("mux"); }
    let n = "mux";
    assert(n@ =~= app_dir_name());
    join_path_str(base, n)
}

/// The program's state directory under the state home: `<state>/mux`.
pub fn get_state_dir(state_home: &str) -> (r: String)
    ensures
        r@ == join_path(state_home@, app_dir_name()),
{
    app_dir(state_home)
}

/// The database: `<state>/mux/history.db`.
pub fn get_db_path(state_home: &str) -> (r: String)
    ensures
        r@ == join_path(join_path(state_home@, app_dir_name()), seq!['h', 'i', 's', 't', 'o', 'r', 'y', '.', 'd', 'b']),
{
    let d = app_dir(state_home);
    proof { reveal_strlit("history.db"); }
    let n = "history.db";
    assert(n@ =~= seq!['h', 'i', 's', 't', 'o', 'r', 'y', '.', 'd', 'b']);
    join_path_str(d.as_str(), n)
}

/// The log directory: `<state>/mux/logs`.
pub fn get_log_dir(state_home: &str) -> (r: String)
    ensures
        r@ == join_path(join_path(state_home@, app_dir_name()), seq!['l', 'o', 'g', 's']),
{
    let d = app_dir(state_home);
    proof { reveal_strlit("logs"); }
    let n = "logs";
    assert(n@ =~= seq!['l', 'o', 'g', 's']);
    join_path_str(d.as_str(), n)
}

/// The settings file: `<config>/mux/config.toml`.
pub fn get_config_path(config_home: &str) -> (r: String)
    ensures
        r@ == join_path(join_path(config_home@, app_dir_name()), seq!['c', 'o', 'n', 'f', 'i', 'g', '.', 't', 'o', 'm', 'l']),
{
    let d = app_dir(config_home);
    proof { reveal_strlit("config.toml"); }
    let n = "config.toml";
    assert(n@ =~= seq!['c', 'o', 'n', 'f', 'i', 'g', '.', 't', 'o', 'm', 'l']);
    join_path_str(d.as_str(), n)
}

} // verus!
