use vstd::prelude::*;

verus! {

/// Settings of one run.
pub struct Config {
    /// Which index is reported: `cdr` for the variable regions under each
    /// barcode, anything else for the barcodes under each variable region.
    pub print_type: String,
    /// Largest number of read pairs to ingest.
    pub take: u64,
    /// Whether quality scores are reported.
    pub qual: bool,
}

impl Config {
    /// Whether the run reports the variable regions seen with each barcode.
    pub fn reports_umi_clusters(&self) -> (r: bool)
        ensures
            r == (self.print_type@ == "cdr"@),
    {
        let cdr: String = "cdr".to_owned();
        self.print_type == cdr
    }
}

impl Default for Config {
    /// Barcode-side report of up to 180 million pairs, without quality.
    fn default() -> (r: Self)
        ensures
            r.print_type@ == "umi"@,
            r.take == 180000000,
            !r.qual,
    {
        Config { print_type: "umi".to_owned(), take: 180000000, qual: false }
    }
}

} // verus!
