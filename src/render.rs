//! Decisions of the render driver that do not touch colour arithmetic: how the
//! image rows are shared out among workers, where a row lands in the output
//! image, and whether the run happens under continuous integration.
use vstd::prelude::*;
use vstd::string::StringSliceAdditionalSpecFns;

verus! {

/// The UTF-8 bytes of `true`, the value of `CI` that switches the driver into
/// its quiet mode.
pub open spec fn ci_word() -> Seq<u8> {
    seq![116u8, 114u8, 117u8, 101u8]
}

/// Whether the value of the `CI` variable, as captured at build time, asks for
/// a run without a progress display: exactly when it is present and is `true`.
pub fn is_ci(value: Option<&str>) -> (r: bool)
    ensures
        r == (value matches Some(s) && s.spec_bytes() =~= ci_word()),
{
    match value {
        None => false,
        Some(s) => {
            let b = s.as_bytes();
            if b.len() != 4 {
                return false;
            }
            let r = b[0] == 116u8 && b[1] == 114u8 && b[2] == 117u8 && b[3] == 101u8;
            assert(r ==> b@ =~= ci_word());
            r
        },
    }
}

/// First row of band `c` when `height` rows are cut into `jobs` bands.
pub open spec fn band_start(height: nat, jobs: nat, c: nat) -> nat
    recommends
        jobs > 0,
{
    (height * c) / jobs
}

/// The rows `[start, end)` that worker `c` of `jobs` renders.
pub fn row_band(height: usize, jobs: usize, c: usize) -> (r: (usize, usize))
    requires
        jobs > 0,
        c < jobs,
        height * jobs <= usize::MAX,
    ensures
        r.0 == band_start(height as nat, jobs as nat, c as nat),
        r.1 == band_start(height as nat, jobs as nat, (c + 1) as nat),
        r.0 <= r.1 <= height,
{
    proof {
        lemma_band_start_monotone(height as nat, jobs as nat, c as nat, (c + 1) as nat);
        lemma_band_start_monotone(height as nat, jobs as nat, (c + 1) as nat, jobs as nat);
        lemma_band_bounds(height as nat, jobs as nat);
        assert(height * c <= height * jobs) by (nonlinear_arith)
            requires
                c < jobs,
        ;
        assert(height * (c + 1) <= height * jobs) by (nonlinear_arith)
            requires
                c < jobs,
        ;
    }
    let start = height * c / jobs;
    let end = height * (c + 1) / jobs;
    (start, end)
}

proof fn lemma_band_start_monotone(height: nat, jobs: nat, a: nat, b: nat)
    requires
        jobs > 0,
        a <= b,
    ensures
        band_start(height, jobs, a) <= band_start(height, jobs, b),
{
    assert(height * a <= height * b) by (nonlinear_arith)
        requires
            a <= b,
    ;
    vstd::arithmetic::div_mod::lemma_div_is_ordered(
        (height * a) as int,
        (height * b) as int,
        jobs as int,
    );
}

proof fn lemma_band_bounds(height: nat, jobs: nat)
    requires
        jobs > 0,
    ensures
        band_start(height, jobs, 0) == 0,
        band_start(height, jobs, jobs) == height,
{
    assert(height * 0 == 0);
    vstd::arithmetic::div_mod::lemma_div_multiples_vanish(height as int, jobs as int);
    assert(height * jobs == jobs * height) by (nonlinear_arith);
}

/// The bands of all workers tile the image: the first starts at row 0, the
/// last ends at `height`, none runs backwards, and each band ends no later than
/// any later band starts, so no row is rendered by two workers.
pub proof fn lemma_bands_partition(height: nat, jobs: nat)
    requires
        jobs > 0,
    ensures
        band_start(height, jobs, 0) == 0,
        band_start(height, jobs, jobs) == height,
        forall|c: nat|
            c < jobs ==> #[trigger] band_start(height, jobs, c) <= band_start(height, jobs, c + 1),
        forall|c: nat, d: nat|
            #![trigger band_start(height, jobs, c), band_start(height, jobs, d)]
            c < d <= jobs ==> band_start(height, jobs, c + 1) <= band_start(height, jobs, d),
{
    lemma_band_bounds(height, jobs);
    assert forall|c: nat| c < jobs implies #[trigger] band_start(height, jobs, c) <= band_start(
        height,
        jobs,
        c + 1,
    ) by {
        lemma_band_start_monotone(height, jobs, c, c + 1);
    }
    assert forall|c: nat, d: nat|
        #![trigger band_start(height, jobs, c), band_start(height, jobs, d)]
        c < d <= jobs implies band_start(height, jobs, c + 1) <= band_start(height, jobs, d) by {
        lemma_band_start_monotone(height, jobs, c + 1, d);
    }
}

/// The bands are as equal as whole rows allow: each holds `height / jobs`
/// rows, or one more.
pub proof fn lemma_bands_balanced(height: nat, jobs: nat, c: nat)
    requires
        jobs > 0,
        c < jobs,
    ensures
        height / jobs <= band_start(height, jobs, c + 1) - band_start(height, jobs, c) <= height
            / jobs + 1,
{
    let n = jobs as int;
    let b = height as int;
    let a = b * (c as int);
    let x = b * (c as int + 1);
    assert(x == a + b) by (nonlinear_arith)
        requires
            a == b * (c as int),
            x == b * (c as int + 1),
    ;
    assert(band_start(height, jobs, c) == a / n);
    assert(band_start(height, jobs, c + 1) == x / n);
    vstd::arithmetic::div_mod::lemma_fundamental_div_mod(a, n);
    vstd::arithmetic::div_mod::lemma_fundamental_div_mod(b, n);
    vstd::arithmetic::div_mod::lemma_fundamental_div_mod(x, n);
    vstd::arithmetic::div_mod::lemma_mod_bound(a, n);
    vstd::arithmetic::div_mod::lemma_mod_bound(b, n);
    vstd::arithmetic::div_mod::lemma_mod_bound(x, n);
    let q = a / n + b / n;
    assert(n * q <= x < n * (q + 2)) by (nonlinear_arith)
        requires
            a == n * (a / n) + a % n,
            b == n * (b / n) + b % n,
            0 <= a % n < n,
            0 <= b % n < n,
            x == a + b,
            q == a / n + b / n,
    ;
    assert(q <= x / n <= q + 1) by (nonlinear_arith)
        requires
            x == n * (x / n) + x % n,
            0 <= x % n < n,
            n * q <= x < n * (q + 2),
            n > 0,
    ;
}

/// Output-image row of scanline `j`: scanline 0 is the bottom of the picture,
/// image row 0 its top.
pub fn image_row(height: usize, j: usize) -> (r: usize)
    requires
        j < height,
    ensures
        r == height - 1 - j,
{
    height - 1 - j
}

} // verus!
