//! Command-line values: the arguments of both modes, their defaults, and
//! what `--lang` means.

use vstd::prelude::*;

use crate::text::{chars_of, same_chars};
use crate::writers::OutputFormat;

verus! {

/// `--lang auto` means "let the engine detect the language".
pub fn language_option(lang: &str) -> (r: Option<String>)
    ensures
        lang@ == "auto"@ ==> r is None,
        lang@ != "auto"@ ==> (r matches Some(s) && s@ == lang@),
{
    if same_chars(&chars_of(lang), &chars_of("auto")) {
        None
    } else {
        Some(lang.to_string())
    }
}

/// Default output directory of batch mode.
pub const DEFAULT_OUT: &'static str = "./transcripts";

/// Default `--model`.
pub const DEFAULT_MODEL: &'static str = "small";

/// Default `--lang`.
pub const DEFAULT_LANG: &'static str = "pt";

/// Default `--device`.
pub const DEFAULT_DEVICE: &'static str = "cpu";

/// Default `--format`.
pub const DEFAULT_FORMAT: OutputFormat = OutputFormat::Txt;

/// Batch mode: audio files, directories or globs, and where and how to
/// write their transcripts.
#[derive(Debug)]
pub struct BatchArgs {
    pub inputs: Vec<String>,
    pub out: String,
    pub model: String,
    pub lang: String,
    pub format: OutputFormat,
    pub device: String,
    pub force: bool,
}

/// WhatsApp mode: a chat-export zip, the date range, and the same
/// transcription settings.
#[derive(Debug)]
pub struct WhatsappArgs {
    pub export_zip: String,
    pub out: Option<String>,
    pub date_from: Option<String>,
    pub date_to: Option<String>,
    pub merge: bool,
    pub format: OutputFormat,
    pub model: String,
    pub lang: String,
    pub device: String,
    pub force: bool,
}

/// The subcommands.
#[derive(Debug)]
pub enum Commands {
    Whatsapp(WhatsappArgs),
}

/// The whole command line: a subcommand, or batch mode.
#[derive(Debug)]
pub struct Cli {
    pub command: Option<Commands>,
    pub batch: BatchArgs,
}

impl BatchArgs {
    /// Batch arguments for `inputs` with every option at its default:
    /// `./transcripts`, `small`, `pt`, txt, `cpu`, no `--force`.
    pub fn with_defaults(inputs: Vec<String>) -> (r: BatchArgs)
        ensures
            r.inputs@ == inputs@,
            r.out@ == DEFAULT_OUT@,
            r.model@ == DEFAULT_MODEL@,
            r.lang@ == DEFAULT_LANG@,
            r.format == DEFAULT_FORMAT,
            r.device@ == DEFAULT_DEVICE@,
            !r.force,
    {
        BatchArgs {
            inputs,
            out: DEFAULT_OUT.to_string(),
            model: DEFAULT_MODEL.to_string(),
            lang: DEFAULT_LANG.to_string(),
            format: DEFAULT_FORMAT,
            device: DEFAULT_DEVICE.to_string(),
            force: false,
        }
    }
}

impl WhatsappArgs {
    /// WhatsApp arguments for `export_zip` with every option at its
    /// default: no `--out`, no date bounds, no `--merge`, txt, `small`, `pt`,
    /// `cpu`, no `--force`.
    pub fn with_defaults(export_zip: String) -> (r: WhatsappArgs)
        ensures
            r.export_zip@ == export_zip@,
            r.out is None,
            r.date_from is None,
            r.date_to is None,
            !r.merge,
            r.format == DEFAULT_FORMAT,
            r.model@ == DEFAULT_MODEL@,
            r.lang@ == DEFAULT_LANG@,
            r.device@ == DEFAULT_DEVICE@,
            !r.force,
    {
        WhatsappArgs {
            export_zip,
            out: None,
            date_from: None,
            date_to: None,
            merge: false,
            format: DEFAULT_FORMAT,
            model: DEFAULT_MODEL.to_string(),
            lang: DEFAULT_LANG.to_string(),
            device: DEFAULT_DEVICE.to_string(),
            force: false,
        }
    }
}

} // verus!
