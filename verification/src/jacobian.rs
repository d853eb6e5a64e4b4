//! The Jacobian-lens analysis of a model, which a Python script computes: when
//! it applies, how the script is called, and what its outcome means.
use crate::error::fails_with;
use crate::error::ErrorView;
use crate::error::SmolError;
use crate::error::SmolResult;
use crate::number::push_signed;
use crate::number::signed_decimal;
use crate::paths::extension_of;
use crate::paths::has_extension;
use crate::record::ModelRecord;
use crate::record::ModelView;
use crate::text::chars_of;
use crate::text::lemma_text_less_total;
use crate::text::lemma_text_less_trans;
use crate::text::less_text;
use crate::text::lines;
use crate::text::same_text;
use crate::text::split_lines;
use crate::ids::law_extension_stands_behind_the_last_dot;
use crate::text::text_less;
use crate::text::text_of;
use crate::text::texts;
use vstd::prelude::*;
use vstd::string::*;

verus! {

/// How many lines of a failed script's output are shown.
pub const STDERR_LINES: usize = 40;

/// What a successful analysis gives: the script's results, the directory of
/// its plots relative to the project root, and the names of the plots in it.
#[derive(Debug, Clone)]
pub struct JacobianLensOutcome {
    pub results_json: String,
    pub plot_dir_rel: String,
    pub plot_files: Vec<String>,
}

/// What is on disk for an analysis. The model and the data set are absent where
/// they do not exist or lie outside the project.
#[derive(Debug, Clone)]
pub struct LensFiles {
    pub script: String,
    pub script_exists: bool,
    pub model: Option<String>,
    pub dataset: Option<String>,
    pub output_dir: String,
}

/// Why an analysis that was started gave nothing.
#[derive(Debug, Clone)]
pub enum LensFault {
    /// The directory for the output cannot be made.
    OutputDir { dir: String, why: String },
    /// There is no Python interpreter.
    PythonMissing,
    /// The interpreter cannot be started.
    Launch { why: String },
    /// The script failed, with a status and with what it wrote to its error
    /// stream.
    Failed { status: String, stderr: String },
    /// The script left no results.
    NoResults { path: String, why: String },
}

/// The directory that a model's plots are written to, relative to the project
/// root.
pub open spec fn plot_dir(id: Seq<char>) -> Seq<char> {
    "jacobian_lens_output/"@ + id
}

/// The directory that a model's plots are written to.
pub fn plot_dir_text(id: &str) -> (r: String)
    ensures
        r@ == plot_dir(id@),
{
    let mut out: String = "jacobian_lens_output/".to_owned();
    out.append(id);
    out
}

/// The head counts as the script takes them: the recorded list, or one number
/// for all blocks where none was recorded.
pub open spec fn heads_argument(m: ModelView) -> Seq<char> {
    if m.heads_schedule.len() == 0 {
        signed_decimal(m.num_heads as int)
    } else {
        m.heads_schedule
    }
}

/// The arguments of the interpreter.
pub open spec fn lens_arguments(
    m: ModelView,
    script: Seq<char>,
    model: Seq<char>,
    dataset: Seq<char>,
    output_dir: Seq<char>,
) -> Seq<Seq<char>> {
    seq![
        script,
        "--model-path"@,
        model,
        "--dataset-path"@,
        dataset,
        "--block-size"@,
        signed_decimal(m.block_size as int),
        "--hidden-size"@,
        signed_decimal(m.hidden_size as int),
        "--num-heads"@,
        heads_argument(m),
        "--num-blocks"@,
        signed_decimal(m.num_blocks as int),
        "--vocab-size"@,
        signed_decimal(m.vocab_size as int),
        "--output-dir"@,
        output_dir,
    ]
}

fn number_text(n: i64) -> (r: String)
    ensures
        r@ == signed_decimal(n as int),
{
    let mut out: String = String::new();
    push_signed(&mut out, n);
    assert(out@ =~= signed_decimal(n as int));
    out
}

fn message(head: &str, subject: &str) -> (r: String)
    ensures
        r@ == head@ + subject@,
{
    let mut out: String = head.to_owned();
    out.append(subject);
    out
}

/// The arguments with which the interpreter is to be started for a model. The
/// model must be a transformer, and the script, the model and the data set must
/// exist; of several faults the first is reported.
pub fn plan_jacobian_lens(record: &ModelRecord, files: &LensFiles) -> (r: SmolResult<Vec<String>>)
    ensures
        if record.model_type@ != "gpt"@ {
            fails_with(
                r,
                ErrorView::InvalidArgument(
                    "Jacobian lens is only applicable to Gpt-type models (got model_type="@
                        + record.model_type@
                        + "); Bigram/Ngram models have no transformer layers to lens through."@,
                ),
            )
        } else if !files.script_exists {
            fails_with(
                r,
                ErrorView::Custom("jacobian_lens.py not found at "@ + files.script@),
            )
        } else if files.model is None {
            fails_with(
                r,
                ErrorView::Custom(
                    "model path not found or escapes project root: "@ + record.path@,
                ),
            )
        } else if files.dataset is None {
            fails_with(
                r,
                ErrorView::Custom(
                    "dataset path not found or escapes project root: "@ + record.dataset@,
                ),
            )
        } else {
            r is Ok && texts(r->Ok_0@) == lens_arguments(
                record@,
                files.script@,
                files.model->0@,
                files.dataset->0@,
                files.output_dir@,
            )
        },
{
    if !same_text(record.model_type.as_str(), "gpt") {
        let mut m: String = message(
            "Jacobian lens is only applicable to Gpt-type models (got model_type=",
            record.model_type.as_str(),
        );
        m.append("); Bigram/Ngram models have no transformer layers to lens through.");
        return Err(SmolError::InvalidArgument(m));
    }
    if !files.script_exists {
        return Err(
            SmolError::CustomError(
                message("jacobian_lens.py not found at ", files.script.as_str()),
            ),
        );
    }
    let model: String = match &files.model {
        Some(p) => p.clone(),
        None => {
            return Err(
                SmolError::CustomError(
                    message(
                        "model path not found or escapes project root: ",
                        record.path.as_str(),
                    ),
                ),
            );
        },
    };
    let dataset: String = match &files.dataset {
        Some(p) => p.clone(),
        None => {
            return Err(
                SmolError::CustomError(
                    message(
                        "dataset path not found or escapes project root: ",
                        record.dataset.as_str(),
                    ),
                ),
            );
        },
    };
    let schedule: Vec<char> = chars_of(record.heads_schedule.as_str());
    let heads: String = if schedule.len() == 0 {
        number_text(record.num_heads)
    } else {
        record.heads_schedule.clone()
    };
    let mut args: Vec<String> = Vec::new();
    args.push(files.script.clone());
    args.push("--model-path".to_owned());
    args.push(model);
    args.push("--dataset-path".to_owned());
    args.push(dataset);
    args.push("--block-size".to_owned());
    args.push(number_text(record.block_size));
    args.push("--hidden-size".to_owned());
    args.push(number_text(record.hidden_size));
    args.push("--num-heads".to_owned());
    args.push(heads);
    args.push("--num-blocks".to_owned());
    args.push(number_text(record.num_blocks));
    args.push("--vocab-size".to_owned());
    args.push(number_text(record.vocab_size));
    args.push("--output-dir".to_owned());
    args.push(files.output_dir.clone());
    proof {
        let want = lens_arguments(
            record@,
            files.script@,
            files.model->0@,
            files.dataset->0@,
            files.output_dir@,
        );
        assert(texts(args@) =~= want);
    }
    Ok(args)
}

/// Lines with a line break between them.
pub open spec fn line_text(v: Seq<Seq<char>>) -> Seq<char>
    decreases v.len(),
{
    if v.len() == 0 {
        seq![]
    } else if v.len() == 1 {
        v[0]
    } else {
        line_text(v.drop_last()).push('\n') + v.last()
    }
}

/// The last `n` of a list.
pub open spec fn last_of(v: Seq<Seq<char>>, n: int) -> Seq<Seq<char>> {
    if v.len() <= n {
        v
    } else {
        v.skip(v.len() - n)
    }
}

/// What is shown of a script's error stream.
pub open spec fn shown_stderr(s: Seq<char>) -> Seq<char> {
    let t = line_text(last_of(lines(s), STDERR_LINES as int));
    if t.len() == 0 {
        "(no stderr output)"@
    } else {
        t
    }
}

fn stderr_tail(stderr: &str) -> (r: Vec<char>)
    ensures
        r@ == line_text(last_of(lines(stderr@), STDERR_LINES as int)),
{
    let v: Vec<char> = chars_of(stderr);
    let all: Vec<Vec<char>> = split_lines(&v);
    let ghost views = all@.map_values(|p: Vec<char>| p@);
    let from: usize = if all.len() <= STDERR_LINES {
        0
    } else {
        all.len() - STDERR_LINES
    };
    let ghost want = last_of(views, STDERR_LINES as int);
    assert(want =~= views.skip(from as int));
    let mut out: Vec<char> = Vec::new();
    let mut i: usize = from;
    assert(out@ =~= line_text(want.take(0)));
    while i < all.len()
        invariant
            from <= i <= all.len(),
            views == all@.map_values(|p: Vec<char>| p@),
            want == views.skip(from as int),
            out@ == line_text(want.take(i - from)),
        decreases all.len() - i,
    {
        let ghost had = out@;
        if i > from {
            out.push('\n');
        }
        let ghost start = out@;
        let mut k: usize = 0;
        assert(start + all@[i as int]@.take(0) =~= start);
        while k < all[i].len()
            invariant
                i < all.len(),
                k <= all@[i as int]@.len(),
                out@ == start + all@[i as int]@.take(k as int),
            decreases all@[i as int]@.len() - k,
        {
            out.push(all[i][k]);
            k += 1;
            assert(out@ =~= start + all@[i as int]@.take(k as int));
        }
        proof {
            let line = all@[i as int]@;
            assert(line.take(k as int) =~= line);
            let upto = want.take(i - from + 1);
            assert(upto.last() == line);
            assert(upto.drop_last() =~= want.take(i - from));
            if i == from {
                assert(had =~= Seq::<char>::empty());
                assert(out@ =~= line);
            }
            assert(out@ =~= line_text(upto));
        }
        i += 1;
    }
    assert(want.take(i - from) =~= want);
    out
}

/// The error that a fault is reported with.
pub open spec fn fault_message(f: LensFault) -> Seq<char> {
    match f {
        LensFault::OutputDir { dir, why } => "failed to create jacobian-lens output dir "@ + dir@
            + ": "@ + why@,
        LensFault::PythonMissing =>
            "python3 not found on PATH — the Jacobian lens analysis requires a Python 3 interpreter with torch, numpy, matplotlib, and safetensors installed (pip install torch numpy matplotlib safetensors). This is a real environmental dependency, unlike the rest of this Rust web app."@,
        LensFault::Launch { why } => "failed to launch python3 for jacobian-lens analysis: "@
            + why@,
        LensFault::Failed { status, stderr } => "jacobian_lens.py exited with status "@ + status@
            + ":\n"@ + shown_stderr(stderr@),
        LensFault::NoResults { path, why } =>
            "jacobian_lens.py reported success but results.json is missing at "@ + path@ + ": "@
                + why@,
    }
}

impl LensFault {
    /// The error that the fault is reported with.
    pub fn error(&self) -> (e: SmolError)
        ensures
            e@ == ErrorView::Custom(fault_message(*self)),
    {
        let mut out: String = String::new();
        match self {
            LensFault::OutputDir { dir, why } => {
                out = message("failed to create jacobian-lens output dir ", dir.as_str());
                out.append(": ");
                out.append(why.as_str());
            },
            LensFault::PythonMissing => {
                out =
                "python3 not found on PATH — the Jacobian lens analysis requires a Python 3 interpreter with torch, numpy, matplotlib, and safetensors installed (pip install torch numpy matplotlib safetensors). This is a real environmental dependency, unlike the rest of this Rust web app.".to_owned();
            },
            LensFault::Launch { why } => {
                out =
                message("failed to launch python3 for jacobian-lens analysis: ", why.as_str());
            },
            LensFault::Failed { status, stderr } => {
                out = message("jacobian_lens.py exited with status ", status.as_str());
                out.append(":\n");
                let tail: Vec<char> = stderr_tail(stderr.as_str());
                if tail.len() == 0 {
                    out.append("(no stderr output)");
                } else {
                    let shown: String = text_of(&tail);
                    out.append(shown.as_str());
                }
            },
            LensFault::NoResults { path, why } => {
                out =
                message(
                    "jacobian_lens.py reported success but results.json is missing at ",
                    path.as_str(),
                );
                out.append(": ");
                out.append(why.as_str());
            },
        }
        SmolError::CustomError(out)
    }
}

/// The names that end in `.png`, in the order in which they come.
pub open spec fn png_names(names: Seq<Seq<char>>) -> Seq<Seq<char>>
    decreases names.len(),
{
    if names.len() == 0 {
        seq![]
    } else if extension_of(names.last()) == Some("png"@) {
        png_names(names.drop_last()).push(names.last())
    } else {
        png_names(names.drop_last())
    }
}

/// Whether no text comes before the one in front of it.
pub open spec fn ascending(v: Seq<Seq<char>>) -> bool {
    forall|a: int, b: int| 0 <= a < b < v.len() ==> !text_less(#[trigger] v[b], #[trigger] v[a])
}

proof fn lemma_insert_text(v: Seq<Seq<char>>, j: int, t: Seq<char>)
    requires
        0 <= j <= v.len(),
        ascending(v),
        forall|a: int| 0 <= a < j ==> !text_less(t, #[trigger] v[a]),
        j < v.len() ==> text_less(t, v[j]),
    ensures
        ascending(v.insert(j, t)),
{
    let out = v.insert(j, t);
    assert forall|a: int, b: int| 0 <= a < b < out.len() implies !text_less(
        #[trigger] out[b],
        #[trigger] out[a],
    ) by {
        if a == j {
            let x = v[b - 1];
            assert(out[b] == x);
            if text_less(x, t) {
                lemma_text_less_trans(x, t, v[j]);
                if b - 1 > j {
                    assert(!text_less(v[b - 1], v[j]));
                } else {
                    lemma_text_less_total(x, x);
                }
            }
        } else if b == j {
            assert(out[a] == v[a]);
        } else {
            let x = if a < j {
                a
            } else {
                a - 1
            };
            let y = if b < j {
                b
            } else {
                b - 1
            };
            assert(out[a] == v[x]);
            assert(out[b] == v[y]);
        }
    }
}

/// The plots among the files of a directory, in order.
pub fn plot_names(names: &Vec<String>) -> (r: Vec<String>)
    ensures
        ascending(texts(r@)),
        texts(r@).to_multiset() =~= png_names(texts(names@)).to_multiset(),
{
    broadcast use vstd::seq_lib::group_to_multiset_ensures;

    let ghost all = texts(names@);
    let mut out: Vec<String> = Vec::new();
    let mut i: usize = 0;
    proof {
        assert(texts(out@) =~= png_names(all.take(0)));
    }
    while i < names.len()
        invariant
            i <= names.len(),
            all == texts(names@),
            ascending(texts(out@)),
            texts(out@).to_multiset() =~= png_names(all.take(i as int)).to_multiset(),
        decreases names.len() - i,
    {
        broadcast use vstd::seq_lib::group_to_multiset_ensures;

        let ghost had = texts(out@);
        proof {
            assert(all.take(i + 1).drop_last() =~= all.take(i as int));
            assert(all.take(i + 1).last() == names@[i as int]@);
        }
        if has_extension(names[i].as_str(), "png") {
            let t: String = names[i].clone();
            let mut j: usize = 0;
            while j < out.len() && !less_text(t.as_str(), out[j].as_str())
                invariant
                    j <= out.len(),
                    texts(out@) == had,
                    forall|a: int| 0 <= a < j ==> !text_less(t@, #[trigger] had[a]),
                decreases out.len() - j,
            {
                j += 1;
            }
            proof {
                if j < out.len() {
                    assert(had[j as int] == out@[j as int]@);
                }
                lemma_insert_text(had, j as int, t@);
                vstd::seq_lib::to_multiset_insert(had, j as int, t@);
            }
            let ghost before_insert = out@;
            out.insert(j, t);
            proof {
                assert(texts(out@) =~= had.insert(j as int, names@[i as int]@));
                assert(texts(out@).to_multiset() =~= had.to_multiset().insert(names@[i as int]@));
            }
        }
        i += 1;
    }
    assert(all.take(i as int) =~= all);
    out
}

/// The outcome of an analysis that succeeded, from the results that were read
/// and the names of the files in the output directory.
pub fn lens_outcome(record: &ModelRecord, results_json: String, names: &Vec<String>) -> (r:
    JacobianLensOutcome)
    ensures
        r.results_json@ == results_json@,
        r.plot_dir_rel@ == plot_dir(record.id@),
        ascending(texts(r.plot_files@)),
        texts(r.plot_files@).to_multiset() =~= png_names(texts(names@)).to_multiset(),
{
    JacobianLensOutcome {
        results_json,
        plot_dir_rel: plot_dir_text(record.id.as_str()),
        plot_files: plot_names(names),
    }
}

/// Lines are put together with a line break between them.
pub proof fn law_lines_are_put_together(a: Seq<Seq<char>>, b: Seq<Seq<char>>, t: Seq<char>)
    ensures
        line_text(Seq::empty()) == Seq::<char>::empty(),
        line_text(seq![t]) == t,
        a.len() > 0 && b.len() > 0 ==> line_text(a + b) == line_text(a).push('\n') + line_text(b),
    decreases b.len(),
{
    assert(seq![t].len() == 1 && seq![t][0] == t);
    if a.len() > 0 && b.len() > 0 {
        let all = a + b;
        let rest = b.drop_last();
        assert(all.drop_last() =~= a + rest);
        assert(all.last() == b.last());
        if rest.len() == 0 {
            assert(a + rest =~= a);
        } else {
            law_lines_are_put_together(a, rest, t);
            assert(line_text(all) =~= line_text(a).push('\n') + line_text(b));
        }
    }
}

/// What is shown of an error stream are its last lines, forty at most.
pub proof fn law_last_lines_are_shown(v: Seq<Seq<char>>, s: Seq<char>, n: int, i: int)
    requires
        n >= 0,
    ensures
        last_of(v, n).len() == if v.len() <= n {
            v.len() as int
        } else {
            n
        },
        0 <= i < last_of(v, n).len() ==> last_of(v, n)[i] == v[v.len() - last_of(v, n).len() + i],
        line_text(last_of(lines(s), 40)).len() > 0 ==> shown_stderr(s) == line_text(
            last_of(lines(s), 40),
        ),
        line_text(last_of(lines(s), 40)).len() == 0 ==> shown_stderr(s) == "(no stderr output)"@,
{
}

/// A name is a plot's exactly where it ends in `.png`, behind something else.
pub proof fn law_plots_end_in_png(names: Seq<Seq<char>>, stem: Seq<char>, name: Seq<char>)
    ensures
        png_names(Seq::empty()) == Seq::<Seq<char>>::empty(),
        stem.len() > 0 ==> png_names(names.push(stem + ".png"@)) == png_names(names).push(
            stem + ".png"@,
        ),
        (forall|i: int| 0 <= i < name.len() ==> #[trigger] name[i] != '.') ==> png_names(
            names.push(name),
        ) == png_names(names),
{
    reveal_strlit(".png");
    reveal_strlit("png");
    assert(names.push(stem + ".png"@).drop_last() =~= names);
    assert(names.push(name).drop_last() =~= names);
    let ext = "png"@;
    assert(stem + ".png"@ =~= stem.push('.') + ext);
    assert forall|i: int| 0 <= i < ext.len() implies #[trigger] ext[i] != '.' by {}
    law_extension_stands_behind_the_last_dot(stem, ext);
    if forall|i: int| 0 <= i < name.len() ==> #[trigger] name[i] != '.' {
        law_extension_stands_behind_the_last_dot(name, name);
    }
}

/// The head counts that a script is given are the recorded list, or the one
/// number where there is none; each number follows the name of its argument.
pub proof fn law_script_is_given_the_shape(
    m: ModelView,
    script: Seq<char>,
    model: Seq<char>,
    dataset: Seq<char>,
    dir: Seq<char>,
)
    ensures
        ({
            let a = lens_arguments(m, script, model, dataset, dir);
            &&& a.len() == 17
            &&& a[0] == script
            &&& a[1] == "--model-path"@ && a[2] == model
            &&& a[3] == "--dataset-path"@ && a[4] == dataset
            &&& a[5] == "--block-size"@ && a[6] == signed_decimal(m.block_size as int)
            &&& a[7] == "--hidden-size"@ && a[8] == signed_decimal(m.hidden_size as int)
            &&& a[9] == "--num-heads"@
            &&& m.heads_schedule.len() > 0 ==> a[10] == m.heads_schedule
            &&& m.heads_schedule.len() == 0 ==> a[10] == signed_decimal(m.num_heads as int)
            &&& a[11] == "--num-blocks"@ && a[12] == signed_decimal(m.num_blocks as int)
            &&& a[13] == "--vocab-size"@ && a[14] == signed_decimal(m.vocab_size as int)
            &&& a[15] == "--output-dir"@ && a[16] == dir
        }),
{
}

/// Plots of a model go below one directory, under its id, and their names are
/// shown in order.
pub proof fn law_plots_stand_below_one_directory(id: Seq<char>, v: Seq<Seq<char>>, a: int, b: int)
    requires
        ascending(v),
        0 <= a < b < v.len(),
    ensures
        plot_dir(id) == "jacobian_lens_output/"@ + id,
        !text_less(v[b], v[a]),
{
}

} // verus!
