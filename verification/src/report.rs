//! The text of a benchmark report: one line per measured quantity, each
//! holding the samples in order, separated by commas, such as
//! `loaded_points:(10,20),`.
use vstd::prelude::*;

use crate::naming::{decimal, push_decimal};

verus! {

/// One sample of a benchmark run. The frame rate and the processor load are
/// given as their text, rounded to whole numbers by the caller.
#[derive(Debug, Clone)]
pub struct BenchmarkSample {
    pub fps: String,
    pub cpu: String,
    pub loaded_points: u64,
    pub loaded_cells: u32,
    pub should_load: u32,
    pub loading_cells: u32,
}

/// The items separated by commas.
pub open spec fn joined(items: Seq<Seq<char>>) -> Seq<char>
    decreases items.len(),
{
    if items.len() == 0 {
        Seq::empty()
    } else if items.len() == 1 {
        items[0]
    } else {
        joined(items.drop_last()) + seq![','] + items.last()
    }
}

/// A line of the report: the name, and the items in brackets.
pub open spec fn report_line(name: Seq<char>, items: Seq<Seq<char>>) -> Seq<char> {
    name + seq![':', '('] + joined(items) + seq![')', ',', '\n']
}

/// The frame rates of the samples.
pub open spec fn fps_texts(s: Seq<BenchmarkSample>) -> Seq<Seq<char>> {
    s.map_values(|b: BenchmarkSample| b.fps@)
}

/// The processor loads of the samples.
pub open spec fn cpu_texts(s: Seq<BenchmarkSample>) -> Seq<Seq<char>> {
    s.map_values(|b: BenchmarkSample| b.cpu@)
}

/// The numbers of points on screen, in decimal.
pub open spec fn loaded_points_texts(s: Seq<BenchmarkSample>) -> Seq<Seq<char>> {
    s.map_values(|b: BenchmarkSample| decimal(b.loaded_points as nat))
}

/// The numbers of cells on screen, in decimal.
pub open spec fn loaded_cells_texts(s: Seq<BenchmarkSample>) -> Seq<Seq<char>> {
    s.map_values(|b: BenchmarkSample| decimal(b.loaded_cells as nat))
}

/// The numbers of cells being loaded, in decimal.
pub open spec fn loading_cells_texts(s: Seq<BenchmarkSample>) -> Seq<Seq<char>> {
    s.map_values(|b: BenchmarkSample| decimal(b.loading_cells as nat))
}

/// The numbers of cells waiting to be loaded, in decimal.
pub open spec fn should_load_texts(s: Seq<BenchmarkSample>) -> Seq<Seq<char>> {
    s.map_values(|b: BenchmarkSample| decimal(b.should_load as nat))
}

/// The whole report: frame rates, processor loads, points on screen, cells
/// on screen, cells loading and cells waiting.
pub open spec fn report_text(s: Seq<BenchmarkSample>) -> Seq<char> {
    report_line(seq!['f', 'p', 's'], fps_texts(s)) + report_line(seq!['c', 'p', 'u'], cpu_texts(s))
        + report_line(
        seq!['l', 'o', 'a', 'd', 'e', 'd', '_', 'p', 'o', 'i', 'n', 't', 's'],
        loaded_points_texts(s),
    ) + report_line(
        seq!['l', 'o', 'a', 'd', 'e', 'd', '_', 'c', 'e', 'l', 'l', 's'],
        loaded_cells_texts(s),
    ) + report_line(
        seq!['l', 'o', 'a', 'd', 'i', 'n', 'g', '_', 'c', 'e', 'l', 'l', 's'],
        loading_cells_texts(s),
    ) + report_line(
        seq!['s', 'h', 'o', 'u', 'l', 'd', '_', 'l', 'o', 'a', 'd'],
        should_load_texts(s),
    )
}

/// Which quantity of a sample a line reports.
#[derive(Debug, Clone, Copy, PartialEq, Eq)]
pub enum Quantity {
    Fps,
    Cpu,
    LoadedPoints,
    LoadedCells,
    LoadingCells,
    ShouldLoad,
}

/// The texts of a quantity over the samples.
pub open spec fn quantity_texts(q: Quantity, s: Seq<BenchmarkSample>) -> Seq<Seq<char>> {
    match q {
        Quantity::Fps => fps_texts(s),
        Quantity::Cpu => cpu_texts(s),
        Quantity::LoadedPoints => loaded_points_texts(s),
        Quantity::LoadedCells => loaded_cells_texts(s),
        Quantity::LoadingCells => loading_cells_texts(s),
        Quantity::ShouldLoad => should_load_texts(s),
    }
}

fn push_str(s: &mut String, t: &str)
    ensures
        final(s)@ == old(s)@ + t@,
{
    s.append(t);
}

/// Appends the text of a quantity of one sample.
fn push_quantity(out: &mut String, q: Quantity, b: &BenchmarkSample)
    ensures
        final(out)@ == old(out)@ + quantity_texts(q, seq![*b])[0],
{
    match q {
        Quantity::Fps => push_str(out, b.fps.as_str()),
        Quantity::Cpu => push_str(out, b.cpu.as_str()),
        Quantity::LoadedPoints => push_decimal(out, b.loaded_points),
        Quantity::LoadedCells => push_decimal(out, b.loaded_cells as u64),
        Quantity::LoadingCells => push_decimal(out, b.loading_cells as u64),
        Quantity::ShouldLoad => push_decimal(out, b.should_load as u64),
    }
}

/// Taking a prefix of the samples takes the prefix of each quantity's texts.
proof fn lemma_quantity_texts_take(q: Quantity, s: Seq<BenchmarkSample>, i: int)
    requires
        0 <= i < s.len(),
    ensures
        quantity_texts(q, s.take(i + 1)) == quantity_texts(q, s.take(i)).push(
            quantity_texts(q, seq![s[i]])[0],
        ),
        quantity_texts(q, s).len() == s.len(),
{
    assert(s.take(i + 1) =~= s.take(i).push(s[i]));
    assert(quantity_texts(q, s.take(i + 1)) =~= quantity_texts(q, s.take(i)).push(
        quantity_texts(q, seq![s[i]])[0],
    ));
}

/// Appends the line of a quantity.
fn push_line(out: &mut String, name: &str, q: Quantity, samples: &Vec<BenchmarkSample>)
    ensures
        final(out)@ == old(out)@ + report_line(name@, quantity_texts(q, samples@)),
{
    proof {
        reveal_strlit(":(");
        reveal_strlit(",");
        reveal_strlit("),\n");
    }
    push_str(out, name);
    push_str(out, ":(");
    let ghost start = out@;
    let mut i: usize = 0;
    while i < samples.len()
        invariant
            i <= samples.len(),
            out@ == start + joined(quantity_texts(q, samples@.take(i as int))),
        decreases samples.len() - i,
    {
        proof {
            reveal_strlit(",");
            lemma_quantity_texts_take(q, samples@, i as int);
        }
        let ghost before = out@;
        if i > 0 {
            push_str(out, ",");
        }
        push_quantity(out, q, &samples[i]);
        proof {
            let items = quantity_texts(q, samples@.take(i + 1));
            assert(items.drop_last() =~= quantity_texts(q, samples@.take(i as int)));
            if i == 0 {
                assert(quantity_texts(q, samples@.take(0)) =~= Seq::empty());
                assert(out@ =~= start + joined(items));
            } else {
                assert(items.len() == i + 1);
                assert(items.last() == quantity_texts(q, seq![samples@[i as int]])[0]);
                assert(out@ =~= before + seq![','] + items.last());
                assert(joined(items) == joined(items.drop_last()) + seq![','] + items.last());
                assert(out@ =~= start + joined(items));
            }
        }
        i = i + 1;
    }
    proof {
        assert(samples@.take(samples@.len() as int) =~= samples@);
    }
    push_str(out, "),\n");
    assert(out@ =~= old(out)@ + report_line(name@, quantity_texts(q, samples@)));
}

/// The text of the benchmark report for the samples, in the order taken.
pub fn benchmark_report(samples: &Vec<BenchmarkSample>) -> (r: String)
    ensures
        r@ == report_text(samples@),
{
    proof {
        reveal_strlit("fps");
        reveal_strlit("cpu");
        reveal_strlit("loaded_points");
        reveal_strlit("loaded_cells");
        reveal_strlit("loading_cells");
        reveal_strlit("should_load");
    }
    let mut out = String::new();
    push_line(&mut out, "fps", Quantity::Fps, samples);
    push_line(&mut out, "cpu", Quantity::Cpu, samples);
    push_line(&mut out, "loaded_points", Quantity::LoadedPoints, samples);
    push_line(&mut out, "loaded_cells", Quantity::LoadedCells, samples);
    push_line(&mut out, "loading_cells", Quantity::LoadingCells, samples);
    push_line(&mut out, "should_load", Quantity::ShouldLoad, samples);
    assert(out@ =~= report_text(samples@));
    out
}

} // verus!
