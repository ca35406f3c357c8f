use vstd::prelude::*;

use crate::pathset::views;

verus! {

/// Everything that can go wrong with the persisted configuration.
#[derive(Debug, PartialEq)]
pub enum ConfigErrorKind {
    Something,
    InvalidKey,
    NonStringValue,
    NotFoundBurnMoratorium,
    NotFoundSweepMoratorium,
    NotFoundSweepPeriod,
    NotFoundSweepTime,
    BurnMoratorium,
    SweepMoratorium,
    SweepPeriod,
    SweepTime,
}

#[derive(Debug, PartialEq)]
pub struct ConfigError {
    pub kind: ConfigErrorKind,
}

/// The user-facing text of a configuration error.
pub open spec fn config_error_text(kind: ConfigErrorKind) -> Seq<char> {
    match kind {
        ConfigErrorKind::Something => "Something went to wrong"@,
        ConfigErrorKind::InvalidKey => "Please set key in [\"burn.moratorium\", \"sweep.moratorium\", \"sweep.period\", \"sweep.time\"]"@,
        ConfigErrorKind::NonStringValue => "Please set values as \"String\""@,
        ConfigErrorKind::NotFoundBurnMoratorium => "Please set \"burn.moratorium\""@,
        ConfigErrorKind::NotFoundSweepMoratorium => "Please set \"sweep.moratorium\""@,
        ConfigErrorKind::NotFoundSweepPeriod => "Please set \"sweep.period\""@,
        ConfigErrorKind::NotFoundSweepTime => "Please set \"sweep.time\""@,
        ConfigErrorKind::BurnMoratorium => "Please set value like \"3days\" or \"1week\" as \"burn.moratorium\""@,
        ConfigErrorKind::SweepMoratorium => "Please set value like \"10hours\" or \"1week\" as \"sweep.moratorium\""@,
        ConfigErrorKind::SweepPeriod => "Please set \"daily\" or \"weekly\" as \"sweep.period\""@,
        ConfigErrorKind::SweepTime => "Please set value from \"00:00\" to \"23:59\" as \"sweep.time\""@,
    }
}

impl ConfigError {
    pub fn new(kind: ConfigErrorKind) -> (r: ConfigError)
        ensures
            r.kind == kind,
    {
        ConfigError { kind }
    }

    pub fn message(&self) -> (r: String)
        ensures
            r@ == config_error_text(self.kind),
    {
        let s: &str = match self.kind {
            ConfigErrorKind::Something => "Something went to wrong",
            ConfigErrorKind::InvalidKey => "Please set key in [\"burn.moratorium\", \"sweep.moratorium\", \"sweep.period\", \"sweep.time\"]",
            ConfigErrorKind::NonStringValue => "Please set values as \"String\"",
            ConfigErrorKind::NotFoundBurnMoratorium => "Please set \"burn.moratorium\"",
            ConfigErrorKind::NotFoundSweepMoratorium => "Please set \"sweep.moratorium\"",
            ConfigErrorKind::NotFoundSweepPeriod => "Please set \"sweep.period\"",
            ConfigErrorKind::NotFoundSweepTime => "Please set \"sweep.time\"",
            ConfigErrorKind::BurnMoratorium => "Please set value like \"3days\" or \"1week\" as \"burn.moratorium\"",
            ConfigErrorKind::SweepMoratorium => "Please set value like \"10hours\" or \"1week\" as \"sweep.moratorium\"",
            ConfigErrorKind::SweepPeriod => "Please set \"daily\" or \"weekly\" as \"sweep.period\"",
            ConfigErrorKind::SweepTime => "Please set value from \"00:00\" to \"23:59\" as \"sweep.time\"",
        };
        s.to_owned()
    }
}

/// Ways the cron table can resist this tool.
#[derive(Debug, PartialEq)]
pub enum CronErrorKind {
    BinExistsInInvalidDir,
    InvalidCharacterCode,
    InvalidPath,
    FailedToWrite,
}

#[derive(Debug, PartialEq)]
pub struct CronError {
    pub kind: CronErrorKind,
}

pub open spec fn cron_error_text(kind: CronErrorKind) -> Seq<char> {
    match kind {
        CronErrorKind::BinExistsInInvalidDir => "The \"bin\" exists in directory whose path include non-UTF-8 charecter code"@,
        CronErrorKind::InvalidCharacterCode => "The \"cron\" file consists of non-UTF-8 character code"@,
        CronErrorKind::InvalidPath => "The path to current directory include non-UTF-8 character code"@,
        CronErrorKind::FailedToWrite => "Failed to write new \"cron\" file"@,
    }
}

impl CronError {
    pub fn new(kind: CronErrorKind) -> (r: CronError)
        ensures
            r.kind == kind,
    {
        CronError { kind }
    }

    pub fn message(&self) -> (r: String)
        ensures
            r@ == cron_error_text(self.kind),
    {
        let s: &str = match self.kind {
            CronErrorKind::BinExistsInInvalidDir => "The \"bin\" exists in directory whose path include non-UTF-8 charecter code",
            CronErrorKind::InvalidCharacterCode => "The \"cron\" file consists of non-UTF-8 character code",
            CronErrorKind::InvalidPath => "The path to current directory include non-UTF-8 character code",
            CronErrorKind::FailedToWrite => "Failed to write new \"cron\" file",
        };
        s.to_owned()
    }
}

/// A required settings file or directory that is not there.
#[derive(Debug, PartialEq)]
pub enum EssentialKind {
    WorkingDir,
    StorageDir,
    ConfigFile,
    IgnoreFile,
}

#[derive(Debug, PartialEq)]
pub struct EssentialLack {
    pub what: EssentialKind,
}

pub open spec fn essential_subject(kind: EssentialKind) -> Seq<char> {
    match kind {
        EssentialKind::WorkingDir => "\".kic\" directory"@,
        EssentialKind::StorageDir => "\"warehouse\" directory"@,
        EssentialKind::ConfigFile => "\"config.toml\" file"@,
        EssentialKind::IgnoreFile => "\"ignore\" file"@,
    }
}

impl EssentialLack {
    pub fn new(what: EssentialKind) -> (r: EssentialLack)
        ensures
            r.what == what,
    {
        EssentialLack { what }
    }

    pub fn message(&self) -> (r: String)
        ensures
            r@ == essential_subject(self.what) + " does not exist"@,
    {
        let s: &str = match self.what {
            EssentialKind::WorkingDir => "\".kic\" directory",
            EssentialKind::StorageDir => "\"warehouse\" directory",
            EssentialKind::ConfigFile => "\"config.toml\" file",
            EssentialKind::IgnoreFile => "\"ignore\" file",
        };
        let mut r = s.to_owned();
        r.append(" does not exist");
        r
    }
}

/// The tool refuses to run inside system directories.
#[derive(Debug, PartialEq)]
pub struct RunningPlaceError {
    pub dir: String,
}

impl RunningPlaceError {
    pub fn new(dir: String) -> (r: RunningPlaceError)
        ensures
            r.dir == dir,
    {
        RunningPlaceError { dir }
    }

    pub fn message(&self) -> (r: String)
        ensures
            r@ == "Cannot run in \""@ + self.dir@ + "\" directory"@,
    {
        let mut r = "Cannot run in \"".to_owned();
        r.append(self.dir.as_str());
        r.append("\" directory");
        r
    }
}

/// Which command a usage message describes.
#[derive(Debug, PartialEq)]
pub enum UsageKind {
    Nothing,
    Help,
    Version,
    Init,
    Config,
    Ignore,
    Sweep,
    Burn,
    Start,
    End,
    Destroy,
    Patrol,
}

pub open spec fn usage_command(kind: UsageKind) -> Seq<char> {
    match kind {
        UsageKind::Nothing => "<Command>"@,
        UsageKind::Help => "help"@,
        UsageKind::Version => "version"@,
        UsageKind::Init => "init"@,
        UsageKind::Config => "config"@,
        UsageKind::Ignore => "ignore"@,
        UsageKind::Sweep => "sweep"@,
        UsageKind::Burn => "burn"@,
        UsageKind::Start => "start"@,
        UsageKind::End => "end"@,
        UsageKind::Destroy => "destroy"@,
        UsageKind::Patrol => "patrol"@,
    }
}

pub open spec fn usage_description(kind: UsageKind) -> Seq<char> {
    match kind {
        UsageKind::Nothing => "Keep your directories clean"@,
        UsageKind::Help => "Display usage for each command"@,
        UsageKind::Version => "Display the version of this software"@,
        UsageKind::Init => "Register current directory, i.e. create \".kic\" directory"@,
        UsageKind::Config => "Change \"config.toml\" file's contents"@,
        UsageKind::Ignore => "Change \"ignore\" file's contents"@,
        UsageKind::Sweep => "Move dust files and empty directories into \"warehouse\" directory"@,
        UsageKind::Burn => "Delete expired directories in \"warehouse\" directory"@,
        UsageKind::Start => "Start automatic \"sweep\" and \"burn\" (UNIX-like: cron, Windows: ?)"@,
        UsageKind::End => "End automatic \"sweep\" and \"burn\" (UNIX-like: cron, Windows: ?)"@,
        UsageKind::Destroy => "Unregister current directory, i.e. delete \".kic\" directory"@,
        UsageKind::Patrol => "Keep your \"cron\" file clean (UNIX-like only)"@,
    }
}

/// The invocation stem common to every usage line of a command.
pub open spec fn usage_common(kind: UsageKind) -> Seq<char> {
    "kic "@ + usage_command(kind)
}

impl UsageKind {
    pub fn command(&self) -> (r: &'static str)
        ensures
            r@ == usage_command(*self),
    {
        match *self {
            UsageKind::Nothing => "<Command>",
            UsageKind::Help => "help",
            UsageKind::Version => "version",
            UsageKind::Init => "init",
            UsageKind::Config => "config",
            UsageKind::Ignore => "ignore",
            UsageKind::Sweep => "sweep",
            UsageKind::Burn => "burn",
            UsageKind::Start => "start",
            UsageKind::End => "end",
            UsageKind::Destroy => "destroy",
            UsageKind::Patrol => "patrol",
        }
    }

    pub fn common_usage(&self) -> (r: String)
        ensures
            r@ == usage_common(*self),
    {
        let mut r = "kic ".to_owned();
        r.append(self.command());
        r
    }

    pub fn description(&self) -> (r: &'static str)
        ensures
            r@ == usage_description(*self),
    {
        match *self {
            UsageKind::Nothing => "Keep your directories clean",
            UsageKind::Help => "Display usage for each command",
            UsageKind::Version => "Display the version of this software",
            UsageKind::Init => "Register current directory, i.e. create \".kic\" directory",
            UsageKind::Config => "Change \"config.toml\" file's contents",
            UsageKind::Ignore => "Change \"ignore\" file's contents",
            UsageKind::Sweep => "Move dust files and empty directories into \"warehouse\" directory",
            UsageKind::Burn => "Delete expired directories in \"warehouse\" directory",
            UsageKind::Start => "Start automatic \"sweep\" and \"burn\" (UNIX-like: cron, Windows: ?)",
            UsageKind::End => "End automatic \"sweep\" and \"burn\" (UNIX-like: cron, Windows: ?)",
            UsageKind::Destroy => "Unregister current directory, i.e. delete \".kic\" directory",
            UsageKind::Patrol => "Keep your \"cron\" file clean (UNIX-like only)",
        }
    }

    pub fn usages(&self) -> (r: Vec<String>)
        ensures
            views(r@) == usage_lines(*self),
    {
        let mut r: Vec<String> = Vec::new();
        match *self {
            UsageKind::Help => {
                let mut s = self.common_usage();
                s.append(" <SubCommand>");
                r.push(s);
            },
            UsageKind::Config => {
                let mut s1 = self.common_usage();
                s1.append(" set <Key> <Value>");
                r.push(s1);
                let mut s2 = self.common_usage();
                s2.append(" init");
                r.push(s2);
            },
            UsageKind::Ignore => {
                let mut s1 = self.common_usage();
                s1.append(" add <File> ...");
                r.push(s1);
                let mut s2 = self.common_usage();
                s2.append(" remove <File> ...");
                r.push(s2);
                let mut s3 = self.common_usage();
                s3.append(" refresh");
                r.push(s3);
                let mut s4 = self.common_usage();
                s4.append(" current");
                r.push(s4);
                let mut s5 = self.common_usage();
                s5.append(" clear");
                r.push(s5);
            },
            UsageKind::Sweep => {
                let mut s = self.common_usage();
                s.append(" [all] [indeed]");
                r.push(s);
            },
            UsageKind::Burn => {
                let mut s = self.common_usage();
                s.append(" [indeed]");
                r.push(s);
            },
            _ => {
                r.push(self.common_usage());
            },
        }
        proof {
            assert(views(r@) =~= usage_lines(*self));
        }
        r
    }

    pub fn sub_commands(&self) -> (r: Vec<String>)
        ensures
            views(r@) == usage_sub_commands(*self),
    {
        let mut r: Vec<String> = Vec::new();
        match *self {
            UsageKind::Nothing => {
                r.push(concat_str("help    # ", UsageKind::Help.description()));
                r.push(concat_str("version # ", UsageKind::Version.description()));
                r.push(concat_str("init    # ", UsageKind::Init.description()));
                r.push(concat_str("config  # ", UsageKind::Config.description()));
                r.push(concat_str("ignore  # ", UsageKind::Ignore.description()));
                r.push(concat_str("sweep   # ", UsageKind::Sweep.description()));
                r.push(concat_str("burn    # ", UsageKind::Burn.description()));
                r.push(concat_str("start   # ", UsageKind::Start.description()));
                r.push(concat_str("end     # ", UsageKind::End.description()));
                r.push(concat_str("destroy # ", UsageKind::Destroy.description()));
                r.push(concat_str("patrol  # ", UsageKind::Patrol.description()));
            },
            UsageKind::Config => {
                r.push("set  # Set parameters related to \"sweep\" and \"burn\" commands".to_owned());
                r.push("init # Initialize \"config.toml\" file".to_owned());
            },
            UsageKind::Ignore => {
                r.push("add     # Add directories and files which will be ignored to \"ignore\" file".to_owned());
                r.push("remove  # Remove directories and files which have been ignored from \"ignore\" file".to_owned());
                r.push("refresh # Remove non-existing directories and files from \"ignore\" file".to_owned());
                r.push("current # Replace \"ignore\" file with one which register current all files".to_owned());
                r.push("clear   # Clear \"ignore\" file, i.e. all files will be aimed from \"sweep\" command".to_owned());
            },
            UsageKind::Sweep => {
                r.push("(none)     # Move fakely dust files into \"warehouse\"".to_owned());
                r.push("indeed     # Move indeed dust files into \"warehouse\"".to_owned());
                r.push("all        # Move fakely dust files into \"warehouse\" including recently accessed files".to_owned());
                r.push("all indeed # Move indeed dust files into \"warehouse\" including recently accessed files".to_owned());
            },
            UsageKind::Burn => {
                r.push("(none) # Delete expired directories in \"warehouse\" fakely".to_owned());
                r.push("indeed # Delete expired directories in \"warehouse\" indeed".to_owned());
            },
            _ => {},
        }
        proof {
            assert(views(r@) =~= usage_sub_commands(*self));
        }
        r
    }

    pub fn optional_items(&self) -> (r: (&'static str, Vec<String>))
        ensures
            r.0@ == usage_optional_header(*self),
            views(r.1@) == usage_optional_items(*self),
    {
        match *self {
            UsageKind::Config => {
                let mut items: Vec<String> = Vec::new();
                items.push(
                    "burn.moratorium  # Moratorium to delete directories in \"warehouse\"".to_owned(),
                );
                items.push(
                    "sweep.moratorium # Moratorium to Move \"dust\"s into \"warehouse\"".to_owned(),
                );
                items.push(
                    "sweep.period     # Period to Move \"dust\"s by automatic \"sweep\"".to_owned(),
                );
                items.push(
                    "sweep.time       # Time to Move \"dust\"s by automatic \"sweep\"".to_owned(),
                );
                proof {
                    assert(views(items@) =~= usage_optional_items(*self));
                }
                ("Keys", items)
            },
            _ => {
                let items: Vec<String> = Vec::new();
                proof {
                    reveal_strlit("");
                    assert(views(items@) =~= usage_optional_items(*self));
                }
                ("", items)
            },
        }
    }
}

/// Joins two string pieces.
fn concat_str(a: &str, b: &str) -> (r: String)
    ensures
        r@ == a@ + b@,
{
    let mut r = a.to_owned();
    r.append(b);
    r
}

pub open spec fn usage_lines(kind: UsageKind) -> Seq<Seq<char>> {
    match kind {
        UsageKind::Help => seq![usage_common(kind) + " <SubCommand>"@],
        UsageKind::Config => seq![
            usage_common(kind) + " set <Key> <Value>"@,
            usage_common(kind) + " init"@,
        ],
        UsageKind::Ignore => seq![
            usage_common(kind) + " add <File> ..."@,
            usage_common(kind) + " remove <File> ..."@,
            usage_common(kind) + " refresh"@,
            usage_common(kind) + " current"@,
            usage_common(kind) + " clear"@,
        ],
        UsageKind::Sweep => seq![usage_common(kind) + " [all] [indeed]"@],
        UsageKind::Burn => seq![usage_common(kind) + " [indeed]"@],
        _ => seq![usage_common(kind)],
    }
}

pub open spec fn usage_sub_commands(kind: UsageKind) -> Seq<Seq<char>> {
    match kind {
        UsageKind::Nothing => seq![
            "help    # "@ + usage_description(UsageKind::Help),
            "version # "@ + usage_description(UsageKind::Version),
            "init    # "@ + usage_description(UsageKind::Init),
            "config  # "@ + usage_description(UsageKind::Config),
            "ignore  # "@ + usage_description(UsageKind::Ignore),
            "sweep   # "@ + usage_description(UsageKind::Sweep),
            "burn    # "@ + usage_description(UsageKind::Burn),
            "start   # "@ + usage_description(UsageKind::Start),
            "end     # "@ + usage_description(UsageKind::End),
            "destroy # "@ + usage_description(UsageKind::Destroy),
            "patrol  # "@ + usage_description(UsageKind::Patrol),
        ],
        UsageKind::Config => seq![
            "set  # Set parameters related to \"sweep\" and \"burn\" commands"@,
            "init # Initialize \"config.toml\" file"@,
        ],
        UsageKind::Ignore => seq![
            "add     # Add directories and files which will be ignored to \"ignore\" file"@,
            "remove  # Remove directories and files which have been ignored from \"ignore\" file"@,
            "refresh # Remove non-existing directories and files from \"ignore\" file"@,
            "current # Replace \"ignore\" file with one which register current all files"@,
            "clear   # Clear \"ignore\" file, i.e. all files will be aimed from \"sweep\" command"@,
        ],
        UsageKind::Sweep => seq![
            "(none)     # Move fakely dust files into \"warehouse\""@,
            "indeed     # Move indeed dust files into \"warehouse\""@,
            "all        # Move fakely dust files into \"warehouse\" including recently accessed files"@,
            "all indeed # Move indeed dust files into \"warehouse\" including recently accessed files"@,
        ],
        UsageKind::Burn => seq![
            "(none) # Delete expired directories in \"warehouse\" fakely"@,
            "indeed # Delete expired directories in \"warehouse\" indeed"@,
        ],
        _ => Seq::empty(),
    }
}

pub open spec fn usage_optional_header(kind: UsageKind) -> Seq<char> {
    match kind {
        UsageKind::Config => "Keys"@,
        _ => ""@,
    }
}

pub open spec fn usage_optional_items(kind: UsageKind) -> Seq<Seq<char>> {
    match kind {
        UsageKind::Config => seq![
            "burn.moratorium  # Moratorium to delete directories in \"warehouse\""@,
            "sweep.moratorium # Moratorium to Move \"dust\"s into \"warehouse\""@,
            "sweep.period     # Period to Move \"dust\"s by automatic \"sweep\""@,
            "sweep.time       # Time to Move \"dust\"s by automatic \"sweep\""@,
        ],
        _ => Seq::empty(),
    }
}

/// The indented, newline-terminated block a list of lines renders to.
pub open spec fn indented_block(items: Seq<Seq<char>>) -> Seq<char>
    decreases items.len(),
{
    if items.len() == 0 {
        Seq::empty()
    } else {
        indented_block(items.drop_last()) + "    "@ + items.last() + "\n"@
    }
}

/// A titled area of a usage message: empty when there is nothing to list.
pub open spec fn area_text(header: Seq<char>, items: Seq<Seq<char>>) -> Seq<char> {
    if items.len() == 0 {
        Seq::empty()
    } else {
        "\n"@ + header + ":\n"@ + indented_block(items)
    }
}

/// The full text of a usage message.
pub open spec fn usage_text(kind: UsageKind) -> Seq<char> {
    "Usage:\n"@ + indented_block(usage_lines(kind)) + "\nDescription:\n    "@ + usage_description(
        kind,
    ) + "\n"@ + area_text("Command"@, usage_sub_commands(kind)) + area_text(
        usage_optional_header(kind),
        usage_optional_items(kind),
    )
}

/// A request to show how a command is used.
#[derive(Debug, PartialEq)]
pub struct Usage {
    pub kind: UsageKind,
}

impl Usage {
    pub fn new(kind: UsageKind) -> (r: Usage)
        ensures
            r.kind == kind,
    {
        Usage { kind }
    }

    /// Renders the lines of a titled area.
    pub fn create_area(header: &str, items: &Vec<String>) -> (r: String)
        ensures
            r@ == area_text(header@, views(items@)),
    {
        let n = items.len();
        if n == 0 {
            proof {
                reveal_strlit("");
                assert(""@ =~= Seq::<char>::empty());
            }
            return "".to_owned();
        }
        let mut body = String::new();
        let mut i: usize = 0;
        proof {
            assert(views(items@).take(0) =~= Seq::<Seq<char>>::empty());
        }
        while i < n
            invariant
                n == items@.len(),
                i <= n,
                body@ == indented_block(views(items@).take(i as int)),
            decreases n - i,
        {
            proof {
                assert(views(items@).take(i + 1).drop_last() =~= views(items@).take(i as int));
                assert(views(items@).take(i + 1).last() == items@[i as int]@);
            }
            body.append("    ");
            body.append(items[i].as_str());
            body.append("\n");
            i += 1;
        }
        let mut r = "\n".to_owned();
        r.append(header);
        r.append(":\n");
        r.append(body.as_str());
        proof {
            assert(views(items@).take(n as int) =~= views(items@));
            assert(r@ =~= area_text(header@, views(items@)));
        }
        r
    }

    /// The full usage message of this kind.
    pub fn message(&self) -> (r: String)
        ensures
            r@ == usage_text(self.kind),
    {
        let lines = self.kind.usages();
        let mut usage = String::new();
        let n = lines.len();
        let mut i: usize = 0;
        proof {
            assert(views(lines@).take(0) =~= Seq::<Seq<char>>::empty());
        }
        while i < n
            invariant
                n == lines@.len(),
                i <= n,
                usage@ == indented_block(views(lines@).take(i as int)),
            decreases n - i,
        {
            proof {
                assert(views(lines@).take(i + 1).drop_last() =~= views(lines@).take(i as int));
                assert(views(lines@).take(i + 1).last() == lines@[i as int]@);
            }
            usage.append("    ");
            usage.append(lines[i].as_str());
            usage.append("\n");
            i += 1;
        }
        proof {
            assert(views(lines@).take(n as int) =~= views(lines@));
        }
        let mut r = "Usage:\n".to_owned();
        r.append(usage.as_str());
        r.append("\nDescription:\n    ");
        r.append(self.kind.description());
        r.append("\n");
        let subs = self.kind.sub_commands();
        let sub_area = Self::create_area("Command", &subs);
        r.append(sub_area.as_str());
        let (header, items) = self.kind.optional_items();
        let opt_area = Self::create_area(header, &items);
        r.append(opt_area.as_str());
        proof {
            assert(r@ =~= usage_text(self.kind));
        }
        r
    }
}

/// Every failure the command layer can surface.
#[derive(Debug)]
pub enum CliError {
    Config(ConfigError),
    Cron(CronError),
    Essential(EssentialLack),
    Io(String),
    ParseInt(String),
    Regex(regex::Error),
    RunningPlace(RunningPlaceError),
    Usage(Usage),
}

#[verifier::external_type_specification]
#[verifier::external_body]
pub struct ExRegexError(regex::Error);

impl From<ConfigError> for CliError {
    fn from(e: ConfigError) -> (r: CliError) {
        CliError::Config(e)
    }
}

impl vstd::std_specs::convert::FromSpecImpl<ConfigError> for CliError {
    open spec fn obeys_from_spec() -> bool {
        true
    }

    open spec fn from_spec(e: ConfigError) -> CliError {
        CliError::Config(e)
    }
}

impl From<CronError> for CliError {
    fn from(e: CronError) -> (r: CliError) {
        CliError::Cron(e)
    }
}

impl vstd::std_specs::convert::FromSpecImpl<CronError> for CliError {
    open spec fn obeys_from_spec() -> bool {
        true
    }

    open spec fn from_spec(e: CronError) -> CliError {
        CliError::Cron(e)
    }
}

impl From<EssentialLack> for CliError {
    fn from(e: EssentialLack) -> (r: CliError) {
        CliError::Essential(e)
    }
}

impl vstd::std_specs::convert::FromSpecImpl<EssentialLack> for CliError {
    open spec fn obeys_from_spec() -> bool {
        true
    }

    open spec fn from_spec(e: EssentialLack) -> CliError {
        CliError::Essential(e)
    }
}

impl From<RunningPlaceError> for CliError {
    fn from(e: RunningPlaceError) -> (r: CliError) {
        CliError::RunningPlace(e)
    }
}

impl vstd::std_specs::convert::FromSpecImpl<RunningPlaceError> for CliError {
    open spec fn obeys_from_spec() -> bool {
        true
    }

    open spec fn from_spec(e: RunningPlaceError) -> CliError {
        CliError::RunningPlace(e)
    }
}

impl From<Usage> for CliError {
    fn from(u: Usage) -> (r: CliError) {
        CliError::Usage(u)
    }
}

impl vstd::std_specs::convert::FromSpecImpl<Usage> for CliError {
    open spec fn obeys_from_spec() -> bool {
        true
    }

    open spec fn from_spec(u: Usage) -> CliError {
        CliError::Usage(u)
    }
}

} // verus!
