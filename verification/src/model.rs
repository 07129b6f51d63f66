//! Model names: which `--model` values name a published ggml model, where
//! such a model is cached, and where it is downloaded from.

use vstd::prelude::*;

use crate::path::{join, join_path};
use crate::text::{chars_of, ends_with, has_suffix, one_of, string_from_chars, sub_chars, views_of};

verus! {

/// Base model names published in the ggerganov/whisper.cpp repository.
pub open spec fn known_models() -> Seq<Seq<char>> {
    seq![
        "tiny"@,
        "tiny.en"@,
        "base"@,
        "base.en"@,
        "small"@,
        "small.en"@,
        "medium"@,
        "medium.en"@,
        "large-v1"@,
        "large-v2"@,
        "large-v3"@,
        "large-v3-turbo"@,
    ]
}

/// Quantization suffixes accepted on any base name.
pub open spec fn quant_suffixes() -> Seq<Seq<char>> {
    seq!["-q5_0"@, "-q5_1"@, "-q8_0"@]
}

/// A known base name, or one with a quantization suffix.
pub open spec fn is_known_name_spec(name: Seq<char>) -> bool {
    ||| known_models().contains(name)
    ||| exists|k: int|
        0 <= k < 3 && has_suffix(name, #[trigger] quant_suffixes()[k]) && known_models().contains(
            name.subrange(0, name.len() - quant_suffixes()[k].len()),
        )
}

fn known_model_list() -> (v: Vec<Vec<char>>)
    ensures
        views_of(v@) == known_models(),
{
    let v = vec![
        chars_of("tiny"),
        chars_of("tiny.en"),
        chars_of("base"),
        chars_of("base.en"),
        chars_of("small"),
        chars_of("small.en"),
        chars_of("medium"),
        chars_of("medium.en"),
        chars_of("large-v1"),
        chars_of("large-v2"),
        chars_of("large-v3"),
        chars_of("large-v3-turbo"),
    ];
    proof {
        assert(views_of(v@) =~= known_models());
    }
    v
}

fn quant_suffix_list() -> (v: Vec<Vec<char>>)
    ensures
        views_of(v@) == quant_suffixes(),
{
    let v = vec![chars_of("-q5_0"), chars_of("-q5_1"), chars_of("-q8_0")];
    proof {
        assert(views_of(v@) =~= quant_suffixes());
    }
    v
}

/// Whether `name` is a model name this tool can download.
pub fn is_known_name(name: &str) -> (r: bool)
    ensures
        r == is_known_name_spec(name@),
{
    let n = chars_of(name);
    let known = known_model_list();
    if one_of(&n, &known) {
        return true;
    }
    let suffixes = quant_suffix_list();
    proof {
        assert(suffixes@.len() == views_of(suffixes@).len());
    }
    let mut k: usize = 0;
    while k < suffixes.len()
        invariant
            k <= suffixes.len() == 3,
            n@ == name@,
            views_of(known@) == known_models(),
            views_of(suffixes@) == quant_suffixes(),
            forall|j: int|
                0 <= j < k ==> !(has_suffix(name@, #[trigger] quant_suffixes()[j])
                    && known_models().contains(
                    name@.subrange(0, name@.len() - quant_suffixes()[j].len()),
                )),
        decreases suffixes.len() - k,
    {
        proof {
            assert(views_of(suffixes@)[k as int] == suffixes@[k as int]@);
        }
        if ends_with(&n, &suffixes[k]) {
            let base = sub_chars(&n, 0, n.len() - suffixes[k].len());
            if one_of(&base, &known) {
                return true;
            }
        }
        k = k + 1;
    }
    false
}

/// `ggml-<model>.bin`
pub open spec fn model_file_name(model: Seq<char>) -> Seq<char> {
    "ggml-"@ + model + ".bin"@
}

/// Where models are cached: `$XDG_CACHE_HOME` when it is absolute, else
/// `$HOME/.cache`, then `harken/models`.
pub open spec fn cache_dir_spec(xdg: Option<Seq<char>>, home: Option<Seq<char>>) -> Seq<char> {
    let base = match xdg {
        Some(x) => if x.len() > 0 && x[0] == '/' {
            x
        } else {
            join(
                match home {
                    Some(h) => h,
                    None => Seq::empty(),
                },
                ".cache"@,
            )
        },
        None => join(
            match home {
                Some(h) => h,
                None => Seq::empty(),
            },
            ".cache"@,
        ),
    };
    join(join(base, "harken"@), "models"@)
}

/// The model cache directory, from the values of `XDG_CACHE_HOME` and
/// `HOME`.
pub fn cache_dir(xdg: Option<String>, home: Option<String>) -> (r: String)
    ensures
        r@ == cache_dir_spec(
            crate::whatsapp::opt_string(xdg),
            crate::whatsapp::opt_string(home),
        ),
{
    let home_dir = match home {
        Some(h) => chars_of(h.as_str()),
        None => Vec::new(),
    };
    let base = match xdg {
        Some(x) => {
            let xs = chars_of(x.as_str());
            if xs.len() > 0 && xs[0] == '/' {
                xs
            } else {
                join_path(&home_dir, &chars_of(".cache"))
            }
        },
        None => join_path(&home_dir, &chars_of(".cache")),
    };
    let d = join_path(&join_path(&base, &chars_of("harken")), &chars_of("models"));
    string_from_chars(&d)
}

/// Where a model is, or where it comes from.
#[derive(Debug)]
pub enum ModelSource {
    /// `--model` is the path of an existing file.
    Given(String),
    /// The model is in the cache already.
    Cached(String),
    /// The model is fetched from `url`, written to `partial`, then renamed
    /// to `dest`.
    Download { url: String, dest: String, partial: String },
}

/// The cached file of model `model`.
pub fn model_cache_path(cache_dir: &str, model: &str) -> (r: String)
    ensures
        r@ == join(cache_dir@, model_file_name(model@)),
{
    let mut name = chars_of("ggml-");
    let mut m = chars_of(model);
    name.append(&mut m);
    let mut ext = chars_of(".bin");
    name.append(&mut ext);
    string_from_chars(&join_path(&chars_of(cache_dir), &name))
}

pub open spec fn model_url_spec(model: Seq<char>) -> Seq<char> {
    "https://huggingface.co/ggerganov/whisper.cpp/resolve/main/"@ + model_file_name(model)
}

pub open spec fn invalid_model_message(model: Seq<char>) -> Seq<char> {
    "invalid model '"@ + model
        + "': expected a path to a ggml .bin file or one of tiny, tiny.en, base, base.en, small, small.en, medium, medium.en, large-v1, large-v2, large-v3, large-v3-turbo (optionally with a -q5_0/-q5_1/-q8_0 suffix)"@
}

fn concat3(a: &str, b: &str, c: &str) -> (r: String)
    ensures
        r@ == a@ + b@ + c@,
{
    let mut v = chars_of(a);
    let mut w = chars_of(b);
    v.append(&mut w);
    let mut x = chars_of(c);
    v.append(&mut x);
    string_from_chars(&v)
}

/// Resolve `--model` to a local ggml file: an existing file path is used
/// directly; a known name resolves to the cache, to be downloaded first if
/// it is not there; anything else is an error listing the valid names.
pub fn resolve_model(model: &str, model_is_file: bool, cache_dir: &str, cached_is_file: bool) -> (r:
    Result<ModelSource, String>)
    ensures
        model_is_file ==> (r matches Ok(ModelSource::Given(p)) && p@ == model@),
        !model_is_file && !is_known_name_spec(model@) ==> (r matches Err(msg) && msg@
            == invalid_model_message(model@)),
        !model_is_file && is_known_name_spec(model@) && cached_is_file ==> (r matches Ok(
            ModelSource::Cached(p),
        ) && p@ == join(cache_dir@, model_file_name(model@))),
        !model_is_file && is_known_name_spec(model@) && !cached_is_file ==> (r matches Ok(
            ModelSource::Download { url, dest, partial },
        ) && url@ == model_url_spec(model@) && dest@ == join(cache_dir@, model_file_name(model@))
            && partial@ == join(cache_dir@, model_file_name(model@) + ".partial"@)),
{
    if model_is_file {
        return Ok(ModelSource::Given(model.to_string()));
    }
    if !is_known_name(model) {
        return Err(concat3(
            "invalid model '",
            model,
            "': expected a path to a ggml .bin file or one of tiny, tiny.en, base, base.en, small, small.en, medium, medium.en, large-v1, large-v2, large-v3, large-v3-turbo (optionally with a -q5_0/-q5_1/-q8_0 suffix)",
        ));
    }
    let dest = model_cache_path(cache_dir, model);
    if cached_is_file {
        return Ok(ModelSource::Cached(dest));
    }
    let file_name = concat3("ggml-", model, ".bin");
    let url = concat3("https://huggingface.co/ggerganov/whisper.cpp/resolve/main/", file_name.as_str(), "");
    let partial_name = concat3(file_name.as_str(), ".partial", "");
    let partial = string_from_chars(&join_path(&chars_of(cache_dir), &chars_of(partial_name.as_str())));
    proof {
        reveal_strlit("");
        assert(url@ =~= model_url_spec(model@));
        assert(partial_name@ =~= model_file_name(model@) + ".partial"@);
    }
    Ok(ModelSource::Download { url, dest, partial })
}

} // verus!
