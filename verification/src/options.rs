//! The options of the command line: what each one sets, and that it sets nothing else.

use crate::cli::{flag_of, no_args, outcome_of, ArgsView, Flag, FloatView, OutcomeView};
use crate::sampler::SamplerConfig;
use crate::text::{decimal, law_decimal_numbers_read_back};
use vstd::prelude::*;

verus! {

proof fn lemma_long_flags()
    ensures
        flag_of("--model"@) == Flag::Model,
        flag_of("--prompt"@) == Flag::Prompt,
        flag_of("--system"@) == Flag::System,
        flag_of("--max-tokens"@) == Flag::MaxTokens,
        flag_of("--temperature"@) == Flag::Temperature,
        flag_of("--top-k"@) == Flag::TopK,
        flag_of("--top-p"@) == Flag::TopP,
        flag_of("--seed"@) == Flag::Seed,
        flag_of("--max-seq-len"@) == Flag::MaxSeqLen,
        flag_of("--interactive"@) == Flag::Interactive,
        flag_of("--cpu"@) == Flag::Cpu,
        flag_of("--gpu"@) == Flag::Gpu,
        flag_of("--help"@) == Flag::Help,
{
    lemma_literals();
    let (m, k, p) = ("--model"@, "--top-k"@, "--top-p"@);
    assert(m[2] == 'm' && k[2] == 't' && p[2] == 't' && k[6] == 'k' && p[6] == 'p');
    assert("--prompt"@[2] == 'p' && "--system"@[2] == 's');
    assert("--temperature"@[2] == 't' && "--max-seq-len"@[2] == 'm' && "--interactive"@[2] == 'i');
    assert("--seed"@[2] == 's' && "--help"@[2] == 'h' && "-p_arg"@[2] == '_');
    assert("--cpu"@[2] == 'c' && "--gpu"@[2] == 'g');
}

proof fn lemma_short_flags()
    ensures
        flag_of("-m"@) == Flag::Model,
        flag_of("-p"@) == Flag::Prompt,
        flag_of("-n"@) == Flag::MaxTokens,
        flag_of("-t"@) == Flag::Temperature,
        flag_of("-k"@) == Flag::TopK,
        flag_of("-s"@) == Flag::Seed,
        flag_of("-i"@) == Flag::Interactive,
        flag_of("-h"@) == Flag::Help,
{
    lemma_literals();
    assert("-m"@[1] == 'm' && "-p"@[1] == 'p' && "-n"@[1] == 'n' && "-t"@[1] == 't');
    assert("-k"@[1] == 'k' && "-s"@[1] == 's' && "-i"@[1] == 'i' && "-h"@[1] == 'h');
}

proof fn lemma_literals()
    ensures
        "--model"@ == seq!['-', '-', 'm', 'o', 'd', 'e', 'l'],
        "--top-k"@ == seq!['-', '-', 't', 'o', 'p', '-', 'k'],
        "--top-p"@ == seq!['-', '-', 't', 'o', 'p', '-', 'p'],
        "--prompt"@ == seq!['-', '-', 'p', 'r', 'o', 'm', 'p', 't'],
        "--system"@ == seq!['-', '-', 's', 'y', 's', 't', 'e', 'm'],
        "--max-tokens"@.len() == 12,
        "--temperature"@.len() == 13 && "--temperature"@[2] == 't',
        "--max-seq-len"@.len() == 13 && "--max-seq-len"@[2] == 'm',
        "--interactive"@.len() == 13 && "--interactive"@[2] == 'i',
        "--seed"@.len() == 6 && "--seed"@[2] == 's',
        "--help"@.len() == 6 && "--help"@[2] == 'h',
        "-p_arg"@.len() == 6 && "-p_arg"@[2] == '_',
        "--cpu"@.len() == 5 && "--cpu"@[2] == 'c',
        "--gpu"@.len() == 5 && "--gpu"@[2] == 'g',
        "-m"@ == seq!['-', 'm'],
        "-p"@ == seq!['-', 'p'],
        "-n"@ == seq!['-', 'n'],
        "-t"@ == seq!['-', 't'],
        "-k"@ == seq!['-', 'k'],
        "-s"@ == seq!['-', 's'],
        "-i"@ == seq!['-', 'i'],
        "-h"@ == seq!['-', 'h'],
{
    reveal_strlit("--model");
    reveal_strlit("--top-k");
    reveal_strlit("--top-p");
    reveal_strlit("--prompt");
    reveal_strlit("--system");
    reveal_strlit("--max-tokens");
    reveal_strlit("--temperature");
    reveal_strlit("--max-seq-len");
    reveal_strlit("--interactive");
    reveal_strlit("--seed");
    reveal_strlit("--help");
    reveal_strlit("-p_arg");
    reveal_strlit("--cpu");
    reveal_strlit("--gpu");
    reveal_strlit("-m");
    reveal_strlit("-p");
    reveal_strlit("-n");
    reveal_strlit("-t");
    reveal_strlit("-k");
    reveal_strlit("-s");
    reveal_strlit("-i");
    reveal_strlit("-h");
}

/// A text behind the option for it sets the model, the prompt or the system prompt, and
/// reading goes on behind the text.
pub proof fn law_text_options_set_their_text(
    args: Seq<Seq<char>>,
    floats: Seq<FloatView>,
    i: int,
    a: ArgsView,
)
    requires
        0 <= i < args.len() - 1,
    ensures
        args[i] == "--model"@ || args[i] == "-m"@ ==> outcome_of(args, floats, i, a) == outcome_of(
            args,
            floats,
            i + 2,
            ArgsView { model_path: Some(args[i + 1]), ..a },
        ),
        args[i] == "--prompt"@ || args[i] == "-p"@ ==> outcome_of(args, floats, i, a)
            == outcome_of(args, floats, i + 2, ArgsView { prompt: Some(args[i + 1]), ..a }),
        args[i] == "--system"@ ==> outcome_of(args, floats, i, a) == outcome_of(
            args,
            floats,
            i + 2,
            ArgsView { system: Some(args[i + 1]), ..a },
        ),
{
    lemma_long_flags();
    lemma_short_flags();
}

/// A number behind the option for it sets that number.
pub proof fn law_number_options_set_their_number(
    args: Seq<Seq<char>>,
    floats: Seq<FloatView>,
    i: int,
    a: ArgsView,
    n: nat,
)
    requires
        0 <= i < args.len() - 1,
        args[i + 1] == decimal(n),
        n <= usize::MAX,
    ensures
        args[i] == "--max-tokens"@ || args[i] == "-n"@ ==> outcome_of(args, floats, i, a)
            == outcome_of(args, floats, i + 2, ArgsView { max_tokens: n as usize, ..a }),
        args[i] == "--top-k"@ || args[i] == "-k"@ ==> outcome_of(args, floats, i, a) == outcome_of(
            args,
            floats,
            i + 2,
            ArgsView {
                sampler_config: SamplerConfig { top_k: n as usize, ..a.sampler_config },
                ..a
            },
        ),
        args[i] == "--seed"@ || args[i] == "-s"@ ==> outcome_of(args, floats, i, a) == outcome_of(
            args,
            floats,
            i + 2,
            ArgsView {
                sampler_config: SamplerConfig { seed: n as u64, ..a.sampler_config },
                ..a
            },
        ),
        args[i] == "--max-seq-len"@ ==> outcome_of(args, floats, i, a) == outcome_of(
            args,
            floats,
            i + 2,
            ArgsView { max_seq_len: Some(n as usize), ..a },
        ),
{
    lemma_long_flags();
    lemma_short_flags();
    law_decimal_numbers_read_back(n, usize::MAX as nat);
    law_decimal_numbers_read_back(n, u64::MAX as nat);
}

/// A float behind the option for it sets the temperature or the threshold.
pub proof fn law_float_options_set_their_float(
    args: Seq<Seq<char>>,
    floats: Seq<FloatView>,
    i: int,
    a: ArgsView,
    x: u32,
)
    requires
        0 <= i < args.len() - 1,
        floats[i + 1] == FloatView::Bits(x),
    ensures
        args[i] == "--temperature"@ || args[i] == "-t"@ ==> outcome_of(args, floats, i, a)
            == outcome_of(
            args,
            floats,
            i + 2,
            ArgsView { sampler_config: SamplerConfig { temperature: x, ..a.sampler_config }, ..a },
        ),
        args[i] == "--top-p"@ ==> outcome_of(args, floats, i, a) == outcome_of(
            args,
            floats,
            i + 2,
            ArgsView { sampler_config: SamplerConfig { top_p: x, ..a.sampler_config }, ..a },
        ),
{
    lemma_long_flags();
    lemma_short_flags();
}

/// A switch stands alone: it sets what it names, and reading goes on behind it. A request
/// for help ends the reading, whatever else is given.
pub proof fn law_switches_stand_alone(
    args: Seq<Seq<char>>,
    floats: Seq<FloatView>,
    i: int,
    a: ArgsView,
)
    requires
        0 <= i < args.len(),
    ensures
        args[i] == "--interactive"@ || args[i] == "-i"@ ==> outcome_of(args, floats, i, a)
            == outcome_of(args, floats, i + 1, ArgsView { interactive: true, ..a }),
        args[i] == "--cpu"@ ==> outcome_of(args, floats, i, a) == outcome_of(
            args,
            floats,
            i + 1,
            ArgsView { use_gpu: Some(false), ..a },
        ),
        args[i] == "--gpu"@ ==> outcome_of(args, floats, i, a) == outcome_of(
            args,
            floats,
            i + 1,
            ArgsView { use_gpu: Some(true), ..a },
        ),
        args[i] == "--help"@ || args[i] == "-h"@ ==> outcome_of(args, floats, i, a)
            == OutcomeView::Help,
{
    lemma_long_flags();
    lemma_short_flags();
}

/// Where reading comes to the end with a model, the run is the one that was set.
pub proof fn law_run_is_what_was_set(
    args: Seq<Seq<char>>,
    floats: Seq<FloatView>,
    a: ArgsView,
)
    requires
        a.model_path is Some,
    ensures
        outcome_of(args, floats, args.len() as int, a) == OutcomeView::Run(a),
        no_args().max_tokens == 512,
        no_args().interactive == false,
        no_args().use_gpu is None,
        no_args().max_seq_len is None,
        no_args().prompt is None && no_args().system is None && no_args().model_path is None,
{
}

/// An option without the value that it needs is refused by its long name.
pub proof fn law_missing_values_are_reported(
    args: Seq<Seq<char>>,
    floats: Seq<FloatView>,
    i: int,
    a: ArgsView,
)
    requires
        0 <= i == args.len() - 1,
    ensures
        args[i] == "--model"@ || args[i] == "-m"@ ==> outcome_of(args, floats, i, a)
            == OutcomeView::Fail("--model"@ + " requires a value"@),
        args[i] == "--prompt"@ || args[i] == "-p"@ ==> outcome_of(args, floats, i, a)
            == OutcomeView::Fail("--prompt"@ + " requires a value"@),
        args[i] == "--system"@ ==> outcome_of(args, floats, i, a) == OutcomeView::Fail(
            "--system"@ + " requires a value"@,
        ),
        args[i] == "--max-tokens"@ || args[i] == "-n"@ ==> outcome_of(args, floats, i, a)
            == OutcomeView::Fail("--max-tokens"@ + " requires a value"@),
        args[i] == "--temperature"@ || args[i] == "-t"@ ==> outcome_of(args, floats, i, a)
            == OutcomeView::Fail("--temperature"@ + " requires a value"@),
        args[i] == "--top-k"@ || args[i] == "-k"@ ==> outcome_of(args, floats, i, a)
            == OutcomeView::Fail("--top-k"@ + " requires a value"@),
        args[i] == "--top-p"@ ==> outcome_of(args, floats, i, a) == OutcomeView::Fail(
            "--top-p"@ + " requires a value"@,
        ),
        args[i] == "--seed"@ || args[i] == "-s"@ ==> outcome_of(args, floats, i, a)
            == OutcomeView::Fail("--seed"@ + " requires a value"@),
        args[i] == "--max-seq-len"@ ==> outcome_of(args, floats, i, a) == OutcomeView::Fail(
            "--max-seq-len"@ + " requires a value"@,
        ),
{
    lemma_long_flags();
    lemma_short_flags();
}

} // verus!
