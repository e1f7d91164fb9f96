//! Run configuration: the three file paths, their defaults, and the
//! command-line flag parser that fills them.

use vstd::prelude::*;
use vstd::pervasive::unreached;
use vstd::string::StringExecFns;

use crate::text::str_eq;

verus! {

/// The three paths a run needs; each defaults when not overridden.
pub struct Config {
    pub ctx_path: Option<String>,
    pub source: Option<String>,
    pub dest: Option<String>,
}

/// The ghost shape of a configuration: each path as its character sequence.
#[verifier::ext_equal]
pub struct ConfigModel {
    pub ctx_path: Option<Seq<char>>,
    pub source: Option<Seq<char>>,
    pub dest: Option<Seq<char>>,
}

/// The model that `c` denotes.
pub open spec fn config_model(c: Config) -> ConfigModel {
    ConfigModel {
        ctx_path: match c.ctx_path {
            Some(s) => Some(s@),
            None => None,
        },
        source: match c.source {
            Some(s) => Some(s@),
            None => None,
        },
        dest: match c.dest {
            Some(s) => Some(s@),
            None => None,
        },
    }
}

pub open spec fn default_ctx_text() -> Seq<char> {
    seq!['.', '/', 'c', 't', 'x', '.', 'j', 's', 'o', 'n']
}

pub open spec fn default_source_text() -> Seq<char> {
    seq!['.', '/', 'i', 'n', 'd', 'e', 'x', '.', 'h', 't', 'm', 'l']
}

pub open spec fn default_dest_text() -> Seq<char> {
    seq![
        '.',
        '/',
        'i',
        'n',
        'd',
        'e',
        'x',
        '-',
        'a',
        'l',
        'i',
        'a',
        's',
        'e',
        'd',
        '.',
        'h',
        't',
        'm',
        'l',
    ]
}

/// The configuration before any flag is read.
pub open spec fn default_model() -> ConfigModel {
    ConfigModel {
        ctx_path: Some(default_ctx_text()),
        source: Some(default_source_text()),
        dest: Some(default_dest_text()),
    }
}

impl Default for Config {
    /// The default paths: `./ctx.json`, `./index.html`, `./index-aliased.html`.
    fn default() -> (c: Config)
        ensures
            config_model(c) == default_model(),
    {
        proof {
            reveal_strlit("./ctx.json");
            reveal_strlit("./index.html");
            reveal_strlit("./index-aliased.html");
            assert("./ctx.json"@ =~= default_ctx_text());
            assert("./index.html"@ =~= default_source_text());
            assert("./index-aliased.html"@ =~= default_dest_text());
        }
        let c = Config {
            ctx_path: Some(String::from_str("./ctx.json")),
            source: Some(String::from_str("./index.html")),
            dest: Some(String::from_str("./index-aliased.html")),
        };
        proof {
            assert(config_model(c) =~~= default_model());
        }
        c
    }
}

pub open spec fn flag_ctx() -> Seq<char> {
    seq!['-', '-', 'c', 't', 'x']
}

pub open spec fn flag_source() -> Seq<char> {
    seq!['-', '-', 's', 'o', 'u', 'r', 'c', 'e']
}

pub open spec fn flag_dest() -> Seq<char> {
    seq!['-', '-', 'd', 'e', 's', 't']
}

/// Reads `args` from position `i` as flag/value pairs applied to `c`; `None`
/// where a flag is unknown or its value is missing.
pub open spec fn parse_args_from(args: Seq<Seq<char>>, i: int, c: ConfigModel) -> Option<
    ConfigModel,
>
    decreases args.len() - i,
{
    if i >= args.len() {
        Some(c)
    } else if i + 1 >= args.len() {
        None
    } else if args[i] == flag_ctx() {
        parse_args_from(args, i + 2, ConfigModel { ctx_path: Some(args[i + 1]), ..c })
    } else if args[i] == flag_source() {
        parse_args_from(args, i + 2, ConfigModel { source: Some(args[i + 1]), ..c })
    } else if args[i] == flag_dest() {
        parse_args_from(args, i + 2, ConfigModel { dest: Some(args[i + 1]), ..c })
    } else {
        None
    }
}

/// The configuration that the whole argument vector (program name first)
/// denotes, starting from the defaults; later flags override earlier ones.
pub open spec fn parse_args_spec(args: Seq<Seq<char>>) -> Option<ConfigModel> {
    parse_args_from(args, 1, default_model())
}

/// Builds the run configuration from the argument vector: flag/value pairs
/// `--ctx`, `--source`, `--dest` after the program name, each overriding its
/// default; a later occurrence of a flag overrides an earlier one.
pub fn get_config_from_args(args: Vec<String>) -> (r: Option<Config>)
    requires
        parse_args_spec(args.deep_view()) is Some,
    ensures
        r matches Some(c) && Some(config_model(c)) == parse_args_spec(args.deep_view()),
{
    let ghost dv = args.deep_view();
    let mut config = Config::default();
    let n = args.len();
    let mut i: usize = 1;
    while i < n
        invariant
            n == args@.len(),
            dv == args.deep_view(),
            1 <= i,
            parse_args_spec(dv) is Some,
            parse_args_spec(dv) == parse_args_from(dv, i as int, config_model(config)),
        decreases n - i,
    {
        proof {
            reveal_strlit("--ctx");
            reveal_strlit("--source");
            reveal_strlit("--dest");
            assert("--ctx"@ =~= flag_ctx());
            assert("--source"@ =~= flag_source());
            assert("--dest"@ =~= flag_dest());
            assert(dv[i as int] == args@[i as int]@);
            assert(i + 1 < n) by {
                if i + 1 >= n {
                    assert(parse_args_from(dv, i as int, config_model(config)) is None);
                }
            }
            assert(dv[i + 1] == args@[i + 1]@);
        }
        let ghost before = config_model(config);
        let arg = &args[i];
        if str_eq(arg.as_str(), "--ctx") {
            config.ctx_path = Some(args[i + 1].clone());
            proof {
                assert(config_model(config) =~~= ConfigModel { ctx_path: Some(dv[i + 1]), ..before });
            }
        } else if str_eq(arg.as_str(), "--source") {
            config.source = Some(args[i + 1].clone());
            proof {
                assert(config_model(config) =~~= ConfigModel { source: Some(dv[i + 1]), ..before });
            }
        } else if str_eq(arg.as_str(), "--dest") {
            config.dest = Some(args[i + 1].clone());
            proof {
                assert(config_model(config) =~~= ConfigModel { dest: Some(dv[i + 1]), ..before });
            }
        } else {
            proof {
                assert(parse_args_from(dv, i as int, before) is None);
            }
            return unreached();
        }
        i += 2;
    }
    Some(config)
}

} // verus!
