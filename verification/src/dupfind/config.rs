//! The command line of the duplicate finder.
use crate::text::{parse_u64, parse_u64_spec, pieces, skip_chars, split_on, starts_with, str_eq};
use vstd::prelude::*;

verus! {

/// What the duplicate finder was asked to do.
pub struct Config {
    /// The directory to search.
    pub root: String,
    /// Whether to descend into subdirectories.
    pub recursive: bool,
    /// Files smaller than this many bytes are left out.
    pub min_size: Option<u64>,
    /// Only files with one of these extensions are considered.
    pub extensions: Option<Vec<String>>,
}

/// A `Config` with its strings taken as sequences of characters.
pub struct ConfigModel {
    pub root: Seq<char>,
    pub recursive: bool,
    pub min_size: Option<u64>,
    pub extensions: Option<Seq<Seq<char>>>,
}

impl Config {
    pub open spec fn model(&self) -> ConfigModel {
        ConfigModel {
            root: self.root@,
            recursive: self.recursive,
            min_size: self.min_size,
            extensions: match self.extensions {
                Some(v) => Some(v@.map_values(|e: String| e@)),
                None => None,
            },
        }
    }
}

/// The configuration before any argument is read: the current directory,
/// searched recursively, with no size limit and every extension.
pub open spec fn default_config() -> ConfigModel {
    ConfigModel { root: "."@, recursive: true, min_size: None, extensions: None }
}

/// `arg` begins with a `-` and is none of the options the finder knows.
pub open spec fn is_unknown_arg(arg: Seq<char>) -> bool {
    &&& arg != "--no-recursive"@
    &&& !"--min-size="@.is_prefix_of(arg)
    &&& !"--ext="@.is_prefix_of(arg)
    &&& arg.len() > 0
    &&& arg[0] == '-'
}

/// The configuration after reading one more argument.
pub open spec fn apply_arg(c: ConfigModel, arg: Seq<char>) -> ConfigModel {
    if arg == "--no-recursive"@ {
        ConfigModel { recursive: false, ..c }
    } else if "--min-size="@.is_prefix_of(arg) {
        ConfigModel { min_size: parse_u64_spec(arg.skip("--min-size="@.len() as int)), ..c }
    } else if "--ext="@.is_prefix_of(arg) {
        let ext = arg.skip("--ext="@.len() as int);
        if ext.len() > 0 {
            ConfigModel { extensions: Some(pieces(ext, ',')), ..c }
        } else {
            c
        }
    } else if !(arg.len() > 0 && arg[0] == '-') {
        ConfigModel { root: arg, ..c }
    } else {
        c
    }
}

/// The configuration that `args` (program name excluded) describe, read in order.
pub open spec fn config_from(args: Seq<Seq<char>>) -> ConfigModel
    decreases args.len(),
{
    if args.len() == 0 {
        default_config()
    } else {
        apply_arg(config_from(args.drop_last()), args.last())
    }
}

/// The arguments among `args` that the finder does not know, in order.
pub open spec fn unknown_args(args: Seq<Seq<char>>) -> Seq<Seq<char>>
    decreases args.len(),
{
    if args.len() == 0 {
        Seq::empty()
    } else if is_unknown_arg(args.last()) {
        unknown_args(args.drop_last()).push(args.last())
    } else {
        unknown_args(args.drop_last())
    }
}

/// The arguments after the program name, as sequences of characters.
pub open spec fn option_args(args: Seq<String>) -> Seq<Seq<char>> {
    if args.len() == 0 {
        Seq::empty()
    } else {
        args.map_values(|a: String| a@).skip(1)
    }
}

/// Reads the command line `args` (the first is the program name): `--no-recursive`,
/// `--min-size=N`, `--ext=a,b,...`, and a directory. Gives the configuration and
/// the arguments that it did not know, which the caller reports.
pub fn parse_config(args: &[String]) -> (r: (Config, Vec<String>))
    ensures
        r.0.model() == config_from(option_args(args@)),
        r.1@.map_values(|a: String| a@) == unknown_args(option_args(args@)),
{
    let mut config = Config {
        root: ".".to_owned(),
        recursive: true,
        min_size: None,
        extensions: None,
    };
    let mut unknown: Vec<String> = Vec::new();
    let ghost all = args@.map_values(|a: String| a@);
    if args.len() == 0 {
        assert(option_args(args@) =~= Seq::<Seq<char>>::empty());
        assert(config.model() == default_config());
        return (config, unknown);
    }
    let mut i: usize = 1;
    assert(all.skip(1).take(0) =~= Seq::<Seq<char>>::empty());
    while i < args.len()
        invariant
            1 <= i <= args.len(),
            all == args@.map_values(|a: String| a@),
            config.model() == config_from(all.skip(1).take(i - 1)),
            unknown@.map_values(|a: String| a@) == unknown_args(all.skip(1).take(i - 1)),
        decreases args.len() - i,
    {
        let arg: &str = args[i].as_str();
        let ghost seen = all.skip(1).take(i - 1);
        assert(all.skip(1).take(i as int).drop_last() =~= seen);
        assert(all.skip(1).take(i as int).last() == arg@);
        let ghost before = config.model();
        if str_eq(arg, "--no-recursive") {
            config.recursive = false;
        } else if starts_with(arg, "--min-size=") {
            let value = skip_chars(arg, "--min-size=".unicode_len());
            config.min_size = parse_u64(value);
        } else if starts_with(arg, "--ext=") {
            let ext = skip_chars(arg, "--ext=".unicode_len());
            if ext.unicode_len() > 0 {
                config.extensions = Some(split_on(ext, ','));
            }
        } else if !(arg.unicode_len() > 0 && arg.get_char(0) == '-') {
            config.root = arg.to_owned();
        } else {
            unknown.push(arg.to_owned());
        }
        assert(config.model() =~~= apply_arg(before, arg@));
        assert(unknown@.map_values(|a: String| a@) =~= unknown_args(all.skip(1).take(i as int)));
        i = i + 1;
    }
    assert(all.skip(1).take(args.len() - 1) =~= option_args(args@));
    (config, unknown)
}


/// `arg` names the directory to search: it does not begin with `-`.
pub open spec fn names_root(arg: Seq<char>) -> bool {
    !(arg.len() > 0 && arg[0] == '-')
}

proof fn lemma_root_arg_is_no_option(a: Seq<char>)
    requires
        names_root(a),
    ensures
        a != "--no-recursive"@,
        !"--min-size="@.is_prefix_of(a),
        !"--ext="@.is_prefix_of(a),
{
    reveal_strlit("--no-recursive");
    reveal_strlit("--min-size=");
    reveal_strlit("--ext=");
    if a == "--no-recursive"@ {
        assert(a[0] == '-');
    }
    if "--min-size="@.is_prefix_of(a) {
        assert(a[0] == a.subrange(0, "--min-size="@.len() as int)[0]);
    }
    if "--ext="@.is_prefix_of(a) {
        assert(a[0] == a.subrange(0, "--ext="@.len() as int)[0]);
    }
}

/// The search is recursive exactly when no argument is `--no-recursive`, and the
/// directory searched is the last argument that does not begin with `-`, or `.`
/// where there is none.
pub proof fn config_follows_its_arguments(args: Seq<Seq<char>>)
    ensures
        config_from(args).recursive <==> !args.contains("--no-recursive"@),
        (forall|i: int| 0 <= i < args.len() ==> !names_root(#[trigger] args[i])) ==> config_from(
            args,
        ).root == "."@,
        forall|i: int|
            0 <= i < args.len() && names_root(#[trigger] args[i]) && (forall|j: int|
                i < j < args.len() ==> !names_root(args[j])) ==> config_from(args).root == args[i],
    decreases args.len(),
{
    if args.len() > 0 {
        let rest = args.drop_last();
        let a = args.last();
        config_follows_its_arguments(rest);
        if names_root(a) {
            lemma_root_arg_is_no_option(a);
        }
        assert(args.contains("--no-recursive"@) <==> (rest.contains("--no-recursive"@) || a
            == "--no-recursive"@)) by {
            if a == "--no-recursive"@ {
                assert(args[args.len() - 1] == a);
            }
            if rest.contains("--no-recursive"@) {
                let k = choose|k: int| 0 <= k < rest.len() && rest[k] == "--no-recursive"@;
                assert(args[k] == rest[k]);
            }
            if args.contains("--no-recursive"@) && a != "--no-recursive"@ {
                let k = choose|k: int| 0 <= k < args.len() && args[k] == "--no-recursive"@;
                assert(rest[k] == args[k]);
            }
        }
        if forall|i: int| 0 <= i < args.len() ==> !names_root(#[trigger] args[i]) {
            assert forall|i: int| 0 <= i < rest.len() implies !names_root(#[trigger] rest[i]) by {
                assert(rest[i] == args[i]);
            }
            assert(!names_root(args[args.len() - 1]));
        }
        assert forall|i: int|
            0 <= i < args.len() && names_root(#[trigger] args[i]) && (forall|j: int|
                i < j < args.len() ==> !names_root(args[j])) implies config_from(args).root
            == args[i] by {
            assert(config_from(args) == apply_arg(config_from(rest), a));
            if i < args.len() - 1 {
                assert(!names_root(args[args.len() - 1]));
                assert(rest[i] == args[i]);
                assert(names_root(rest[i]));
                assert forall|j: int| i < j < rest.len() implies !names_root(rest[j]) by {
                    assert(rest[j] == args[j]);
                }
                assert(config_from(rest).root == rest[i]);
                assert(!names_root(a));
            } else {
                assert(a == args[i]);
                assert(names_root(a));
                lemma_root_arg_is_no_option(a);
            }
        }
    }
}

} // verus!
