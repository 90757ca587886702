//! The command line grammar: the arguments of the dataset commands and the
//! help texts.

use vstd::prelude::*;

verus! {

/// The output of a command.
#[derive(Debug, Clone, Copy, PartialEq, Eq, Structural)]
pub enum OutputFormat {
    Text,
    Json,
}

/// The arguments of a command that reads a dataset.
#[derive(Debug, Clone, PartialEq)]
pub struct DatasetArguments {
    pub ratings: String,
    pub catalog: String,
    pub config: Option<String>,
    pub output: OutputFormat,
}

/// What has been read of the arguments so far.
pub ghost struct ParsedView {
    pub ratings: Seq<char>,
    pub catalog: Option<Seq<char>>,
    pub config: Option<Seq<char>>,
    pub json: bool,
}

/// Reads the options from position `index` on: `--catalog <path>`,
/// `--config <path>` where allowed, and `--json`; a later option wins;
/// anything else, or an option without its value, is refused.
pub open spec fn scan_options(args: Seq<Seq<char>>, allow_config: bool, index: int, state: ParsedView) -> Option<ParsedView>
    decreases args.len() - index,
{
    if index < 0 || index >= args.len() {
        Some(state)
    } else if args[index] == "--catalog"@ {
        if index + 1 < args.len() {
            scan_options(args, allow_config, index + 2, ParsedView { catalog: Some(args[index + 1]), ..state })
        } else {
            None
        }
    } else if args[index] == "--config"@ && allow_config {
        if index + 1 < args.len() {
            scan_options(args, allow_config, index + 2, ParsedView { config: Some(args[index + 1]), ..state })
        } else {
            None
        }
    } else if args[index] == "--json"@ {
        scan_options(args, allow_config, index + 1, ParsedView { json: true, ..state })
    } else {
        None
    }
}

/// The arguments of a dataset command: the ratings path first (not an
/// option), then the options, with a catalog required.
pub open spec fn parse_outcome(args: Seq<Seq<char>>, allow_config: bool) -> Option<ParsedView> {
    if args.len() == 0 || (args[0].len() > 0 && args[0][0] == '-') {
        None
    } else {
        match scan_options(args, allow_config, 1, ParsedView { ratings: args[0], catalog: None, config: None, json: false }) {
            Some(v) => if v.catalog is Some { Some(v) } else { None },
            None => None,
        }
    }
}

/// The texts of the arguments.
pub open spec fn texts_of(args: Seq<String>) -> Seq<Seq<char>> {
    args.map_values(|s: String| s@)
}

impl DatasetArguments {
    /// Reads the arguments of a dataset command; on any mistake the usage
    /// line is the error.
    pub fn parse(arguments: &Vec<String>, allow_config: bool, usage: &str) -> (result: Result<DatasetArguments, String>)
        ensures
            match parse_outcome(texts_of(arguments@), allow_config) {
                Some(v) => result matches Ok(p) && p.ratings@ == v.ratings && Some(p.catalog@) == v.catalog
                    && (match p.config { Some(c) => Some(c@), None => None::<Seq<char>> }) == v.config
                    && (p.output == OutputFormat::Json) == v.json,
                None => result matches Err(e) && e@ == usage@,
            },
    {
        let ghost args = texts_of(arguments@);
        proof {
            reveal_strlit("--catalog");
            reveal_strlit("--config");
            reveal_strlit("--json");
        }
        if arguments.len() == 0 {
            return Err(String::from_str(usage));
        }
        let ratings = &arguments[0];
        let first = ratings.as_str();
        assert(args[0] == first@);
        if first.unicode_len() > 0 && first.get_char(0) == '-' {
            return Err(String::from_str(usage));
        }
        let ghost start = ParsedView { ratings: args[0], catalog: None, config: None, json: false };
        let mut catalog: Option<String> = None;
        let mut config: Option<String> = None;
        let mut json = false;
        let mut index: usize = 1;
        while index < arguments.len()
            invariant
                args == texts_of(arguments@),
                args.len() == arguments@.len(),
                args.len() > 0,
                !(args[0].len() > 0 && args[0][0] == '-'),
                start == (ParsedView { ratings: args[0], catalog: None, config: None, json: false }),
                1 <= index,
                scan_options(args, allow_config, 1, start) == scan_options(args, allow_config, index as int, ParsedView {
                    ratings: args[0],
                    catalog: match catalog { Some(c) => Some(c@), None => None::<Seq<char>> },
                    config: match config { Some(c) => Some(c@), None => None::<Seq<char>> },
                    json,
                }),
            decreases arguments.len() - index,
        {
            let option = arguments[index].as_str();
            assert(args[index as int] == option@);
            if crate::text::text_equals(option, "--catalog") {
                if index + 1 >= arguments.len() {
                    proof {
                        let cur = ParsedView {
                            ratings: args[0],
                            catalog: match catalog { Some(c) => Some(c@), None => None::<Seq<char>> },
                            config: match config { Some(c) => Some(c@), None => None::<Seq<char>> },
                            json,
                        };
                        assert(scan_options(args, allow_config, index as int, cur) is None);
                    }
                    return Err(String::from_str(usage));
                }
                catalog = Some(arguments[index + 1].clone());
                index = index + 2;
            } else if allow_config && crate::text::text_equals(option, "--config") {
                if index + 1 >= arguments.len() {
                    proof {
                        let cur = ParsedView {
                            ratings: args[0],
                            catalog: match catalog { Some(c) => Some(c@), None => None::<Seq<char>> },
                            config: match config { Some(c) => Some(c@), None => None::<Seq<char>> },
                            json,
                        };
                        reveal_strlit("--config");
                        reveal_strlit("--catalog");
                        assert("--config"@ != "--catalog"@) by {
                            assert("--config"@.len() == 8);
                            assert("--catalog"@.len() == 9);
                        }
                        assert(scan_options(args, allow_config, index as int, cur) is None);
                    }
                    return Err(String::from_str(usage));
                }
                config = Some(arguments[index + 1].clone());
                index = index + 2;
            } else if crate::text::text_equals(option, "--json") {
                json = true;
                index = index + 1;
            } else {
                proof {
                    let cur = ParsedView {
                        ratings: args[0],
                        catalog: match catalog { Some(c) => Some(c@), None => None::<Seq<char>> },
                        config: match config { Some(c) => Some(c@), None => None::<Seq<char>> },
                        json,
                    };
                    assert(scan_options(args, allow_config, index as int, cur) is None);
                }
                return Err(String::from_str(usage));
            }
        }
        let catalog = match catalog {
            Some(c) => c,
            None => return Err(String::from_str(usage)),
        };
        Ok(DatasetArguments {
            ratings: ratings.clone(),
            catalog,
            config,
            output: if json { OutputFormat::Json } else { OutputFormat::Text },
        })
    }
}

/// The usage line of a command.
pub fn usage(command: &str) -> (line: &'static str)
    ensures
        command@ == "import-csv"@ ==> line@ == "usage: watchmind-cli import-csv <ratings.csv> --catalog <catalog.json>"@,
        command@ == "build-profile"@ ==> line@ == "usage: watchmind-cli build-profile <ratings.csv> --catalog <catalog.json> [--json]"@,
        command@ == "show-poles"@ ==> line@ == "usage: watchmind-cli show-poles <ratings.csv> --catalog <catalog.json> [--json]"@,
        command@ == "recommend"@ ==> line@ == "usage: watchmind-cli recommend <ratings.csv> --catalog <catalog.json> [--json]"@,
        command@ == "explain"@ ==> line@ == "usage: watchmind-cli explain <work-id> <ratings.csv> --catalog <catalog.json> [--json]"@,
        command@ == "evaluate"@ ==> line@ == "usage: watchmind-cli evaluate <ratings.csv> --catalog <catalog.json> [--config <evaluation.json>] [--json]"@,
        command@ == "leave-one-out"@ ==> line@ == "usage: watchmind-cli leave-one-out <ratings.csv> --catalog <catalog.json> [--config <evaluation.json>] [--json]"@,
        command@ == "compare-baselines"@ ==> line@ == "usage: watchmind-cli compare-baselines <ratings.csv> --catalog <catalog.json> [--json]"@,
        !(command@ == "import-csv"@ || command@ == "build-profile"@ || command@ == "show-poles"@ || command@ == "recommend"@
            || command@ == "explain"@ || command@ == "evaluate"@ || command@ == "leave-one-out"@ || command@ == "compare-baselines"@)
            ==> line@ == "usage: watchmind-cli <command> --help"@,
{
    proof {
        reveal_strlit("import-csv");
        reveal_strlit("build-profile");
        reveal_strlit("show-poles");
        reveal_strlit("recommend");
        reveal_strlit("explain");
        reveal_strlit("evaluate");
        reveal_strlit("leave-one-out");
        reveal_strlit("compare-baselines");
        assert("import-csv"@.len() == 10 && "import-csv"@[0] == 'i');
        assert("build-profile"@.len() == 13 && "build-profile"@[0] == 'b');
        assert("show-poles"@.len() == 10 && "show-poles"@[0] == 's');
        assert("recommend"@.len() == 9 && "recommend"@[0] == 'r');
        assert("explain"@.len() == 7 && "explain"@[0] == 'e');
        assert("evaluate"@.len() == 8 && "evaluate"@[0] == 'e');
        assert("leave-one-out"@.len() == 13 && "leave-one-out"@[0] == 'l');
        assert("compare-baselines"@.len() == 17 && "compare-baselines"@[0] == 'c');
    }
    if crate::text::text_equals(command, "import-csv") {
        "usage: watchmind-cli import-csv <ratings.csv> --catalog <catalog.json>"
    } else if crate::text::text_equals(command, "build-profile") {
        "usage: watchmind-cli build-profile <ratings.csv> --catalog <catalog.json> [--json]"
    } else if crate::text::text_equals(command, "show-poles") {
        "usage: watchmind-cli show-poles <ratings.csv> --catalog <catalog.json> [--json]"
    } else if crate::text::text_equals(command, "recommend") {
        "usage: watchmind-cli recommend <ratings.csv> --catalog <catalog.json> [--json]"
    } else if crate::text::text_equals(command, "explain") {
        "usage: watchmind-cli explain <work-id> <ratings.csv> --catalog <catalog.json> [--json]"
    } else if crate::text::text_equals(command, "evaluate") {
        "usage: watchmind-cli evaluate <ratings.csv> --catalog <catalog.json> [--config <evaluation.json>] [--json]"
    } else if crate::text::text_equals(command, "leave-one-out") {
        "usage: watchmind-cli leave-one-out <ratings.csv> --catalog <catalog.json> [--config <evaluation.json>] [--json]"
    } else if crate::text::text_equals(command, "compare-baselines") {
        "usage: watchmind-cli compare-baselines <ratings.csv> --catalog <catalog.json> [--json]"
    } else {
        "usage: watchmind-cli <command> --help"
    }
}

/// The list of commands.
pub fn help_text() -> (text: &'static str)
    ensures
        text@ == "Commands: import-csv, build-profile, show-poles, recommend, explain, evaluate, leave-one-out, compare-baselines"@,
{
    "Commands: import-csv, build-profile, show-poles, recommend, explain, evaluate, leave-one-out, compare-baselines"
}

} // verus!
