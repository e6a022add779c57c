//! Currency tables.
//!
//! `CURRENCIES` lists, for each currency, its ISO 4217 code, its
//! international symbol and its native symbol, in code order.
//! `SAFE_CURRENCY_SYMBOLS` lists the symbols that identify a currency wherever
//! they appear, in a declared order that puts longer variants (`US$`) before
//! the shorter ones they begin with (`$`).

use vstd::prelude::*;

use crate::order::{insert_sorted, sorted_by, str_views, vec_views};

verus! {

/// Each currency's ISO 4217 code, international symbol and native symbol,
/// in code order.
pub const CURRENCIES: [(&'static str, &'static str, &'static str); 208] = [
    ("AED", "AED", "د.إ.\u{200f}"),
    ("AFN", "Af", "؋"),
    ("ALL", "ALL", "Lek"),
    ("AMD", "AMD", "դր."),
    ("ANG", "NAƒ", "NAƒ"),
    ("AOA", "Kz", "Kz"),
    ("AON", "Kz", "AON"),
    ("ARS", "AR$", "$"),
    ("AUD", "AU$", "$"),
    ("AWG", "Afl.", "Afl."),
    ("AZM", "man.", "AZM"),
    ("AZN", "man.", "ман."),
    ("BAM", "KM", "KM"),
    ("BBD", "Bds$", "$"),
    ("BDT", "Tk", "৳"),
    ("BGL", "BGN", "BGL"),
    ("BGN", "BGN", "лв."),
    ("BHD", "BD", "د.ب.\u{200f}"),
    ("BIF", "FBu", "FBu"),
    ("BMD", "BD$", "$"),
    ("BND", "BN$", "$"),
    ("BOB", "Bs", "Bs"),
    ("BOV", "Bs", "Bs."),
    ("BRL", "R$", "R$"),
    ("BSD", "B$", "$"),
    ("BTN", "Nu.", "Nu."),
    ("BWP", "BWP", "P"),
    ("BYN", "Br", "руб."),
    ("BYR", "Br", "руб."),
    ("BZD", "BZ$", "$"),
    ("CAD", "CA$", "$"),
    ("CDF", "CDF", "FrCD"),
    ("CHE", "CHF", "CHE"),
    ("CHF", "CHF", "CHF"),
    ("CHW", "CHF", "CHW"),
    ("CLF", "CL$", "UF"),
    ("CLP", "CL$", "$"),
    ("CNY", "CN¥", "CN¥"),
    ("COP", "CO$", "$"),
    ("COU", "CO$", "COU"),
    ("CRC", "₡", "₡"),
    ("CSD", "din.", "дин."),
    ("CUC", "CUC$", "CUC$"),
    ("CUP", "CUP", "$MN"),
    ("CVE", "CV$", "CV$"),
    ("CYP", "£", "CY£"),
    ("CZK", "Kč", "Kč"),
    ("DJF", "Fdj", "Fdj"),
    ("DKK", "Dkr", "kr"),
    ("DOP", "RD$", "RD$"),
    ("DZD", "DA", "د.ج.\u{200f}"),
    ("ECS", "S/.", "ECS"),
    ("EEK", "Ekr", "Ekr"),
    ("EGP", "EGP", "ج.م.\u{200f}"),
    ("ERN", "Nfk", "Nfk"),
    ("ETB", "Br", "Br"),
    ("EUR", "€", "€"),
    ("FJD", "FJ$", "$"),
    ("FKP", "FK£", "£"),
    ("GBP", "£", "£"),
    ("GEL", "GEL", "₾"),
    ("GHC", "₵", "GHC"),
    ("GHS", "GH₵", "GH₵"),
    ("GIP", "GIP", "£"),
    ("GMD", "GMD", "D"),
    ("GNF", "FG", "FG"),
    ("GTQ", "GTQ", "Q"),
    ("GYD", "GY$", "$"),
    ("HKD", "HK$", "$"),
    ("HNL", "HNL", "L"),
    ("HRK", "kn", "kn"),
    ("HTG", "HTG", "G"),
    ("HUF", "Ft", "Ft"),
    ("IDR", "Rp", "Rp"),
    ("ILS", "₪", "₪"),
    ("INR", "Rs", "₹"),
    ("IQD", "IQD", "د.ع.\u{200f}"),
    ("IRR", "IRR", "﷼"),
    ("ISK", "Ikr", "kr"),
    ("JMD", "J$", "$"),
    ("JOD", "JD", "د.أ.\u{200f}"),
    ("JPY", "¥", "￥"),
    ("KES", "Ksh", "Ksh"),
    ("KGS", "KGS", "сом"),
    ("KHR", "KHR", "៛"),
    ("KMF", "CF", "FC"),
    ("KPW", "KPW", "₩"),
    ("KRW", "₩", "₩"),
    ("KWD", "KD", "د.ك.\u{200f}"),
    ("KYD", "KY$", "$"),
    ("KZT", "KZT", "тңг."),
    ("LAK", "₭", "₭"),
    ("LBP", "LB£", "ل.ل.\u{200f}"),
    ("LKR", "SLRs", "SL Re"),
    ("LRD", "L$", "$"),
    ("LSL", "LSL", "M"),
    ("LTL", "Lt", "LTL"),
    ("LVL", "Ls", "LVL"),
    ("LYD", "LD", "د.ل.\u{200f}"),
    ("MAD", "MAD", "د.م.\u{200f}"),
    ("MDL", "MDL", "MDL"),
    ("MGA", "MGA", "Ar"),
    ("MGF", "FMG", "MGF"),
    ("MKD", "MKD", "ден."),
    ("MMK", "MMK", "K"),
    ("MNT", "MNT", "₮"),
    ("MOP", "MOP$", "MOP$"),
    ("MRO", "UM", "UM"),
    ("MRU", "MRU", "UM"),
    ("MTL", "Lm", "Lm"),
    ("MUR", "MURs", "MURs"),
    ("MVR", "MVR", "Rf"),
    ("MWK", "MWK", "MK"),
    ("MXN", "MX$", "$"),
    ("MXV", "MX$", "MXV"),
    ("MYR", "RM", "RM"),
    ("MZM", "MTn", "MZM"),
    ("MZN", "MTn", "MTn"),
    ("NAD", "N$", "N$"),
    ("NGN", "₦", "₦"),
    ("NIO", "C$", "C$"),
    ("NOK", "Nkr", "kr"),
    ("NPR", "NPRs", "नेरू"),
    ("NZD", "NZ$", "$"),
    ("OMR", "OMR", "ر.ع.\u{200f}"),
    ("PAB", "B/.", "B/."),
    ("PEI", "S/.", "PEI"),
    ("PEN", "S/.", "S/."),
    ("PGK", "PGK", "K"),
    ("PHP", "₱", "₱"),
    ("PKR", "PKRs", "₨"),
    ("PLN", "zł", "zł"),
    ("PYG", "₲", "₲"),
    ("QAR", "QR", "ر.ق.\u{200f}"),
    ("ROL", "RON", "ROL"),
    ("RON", "RON", "RON"),
    ("RSD", "din.", "дин."),
    ("RUB", "RUB", "руб."),
    ("RWF", "RWF", "FR"),
    ("SAR", "SR", "ر.س.\u{200f}"),
    ("SBD", "SI$", "$"),
    ("SCR", "SRe", "SR"),
    ("SDD", "SDG", "SDD"),
    ("SDG", "SDG", "SDG"),
    ("SEK", "Skr", "kr"),
    ("SGD", "S$", "$"),
    ("SHP", "SHP", "£"),
    ("SIT", "tolar", "tolar"),
    ("SKK", "Sk", "SKK"),
    ("SLE", "Le", "Le"),
    ("SLL", "Le", "Le"),
    ("SOS", "Ssh", "Ssh"),
    ("SRD", "SRD", "$"),
    ("SRG", "SRD", "SRG"),
    ("SSP", "SSP", "£"),
    ("STD", "Db", "Db"),
    ("STN", "Db", "Db"),
    ("SVC", "₡", "₡"),
    ("SYP", "SY£", "ل.س.\u{200f}"),
    ("SZL", "SZL", "E"),
    ("THB", "฿", "฿"),
    ("TJS", "TJS", "SM"),
    ("TMM", "TMT", "TMT"),
    ("TMT", "TMT", "m"),
    ("TND", "DT", "د.ت.\u{200f}"),
    ("TOP", "T$", "T$"),
    ("TRL", "TL", "TL"),
    ("TRY", "TL", "TL"),
    ("TTD", "TT$", "$"),
    ("TWD", "NT$", "NT$"),
    ("TZS", "TSh", "TSh"),
    ("UAH", "₴", "₴"),
    ("UGX", "USh", "USh"),
    ("USD", "$", "$"),
    ("USN", "$", "USN"),
    ("UYI", "$U", "UYI"),
    ("UYU", "$U", "$"),
    ("UYW", "$U", "UYW"),
    ("UZS", "UZS", "UZS"),
    ("VEB", "Bs", "VEB"),
    ("VED", "Bs.S", "Bs.D"),
    ("VEF", "Bs.S", "Bs.F."),
    ("VES", "Bs.S", "Bs.S"),
    ("VND", "₫", "₫"),
    ("VUV", "VT", "VT"),
    ("WST", "WS$", "WS$"),
    ("XAF", "FCFA", "FCFA"),
    ("XAG", "XAG", "XAG"),
    ("XAU", "XAU", "XAU"),
    ("XBD", "XBD", "XBD"),
    ("XCD", "EC$", "$"),
    ("XDR", "SDR", "XDR"),
    ("XOF", "CFA", "CFA"),
    ("XPD", "XPD", "XPD"),
    ("XPF", "CFPF", "FCFP"),
    ("XPT", "XPT", "XPT"),
    ("XSU", "Sucre", "Sucre"),
    ("XXX", "XXX", "XXX"),
    ("YER", "YR", "ر.ي.\u{200f}"),
    ("YUM", "din.", "дин."),
    ("ZAR", "R", "R"),
    ("ZMK", "ZK", "ZK"),
    ("ZMW", "ZK", "ZK"),
    ("ZRN", "CDF", "ZRN"),
    ("ZWD", "Z$", "ZWD"),
    ("ZWL", "Z$", "ZWL$"),
    ("ZWN", "Z$", "ZWN"),
    ("ZWR", "Z$", "ZWR"),
];

/// Symbols that name a currency unambiguously, in their declared order. The
/// order matters where two symbols match at one position: variants of `$` such
/// as `US$` and `$U` come before `$` itself.
pub const SAFE_CURRENCY_SYMBOLS: [&'static str; 126] = [
    "Bds$", "CUC$", "MOP$", "AR$", "AU$", "BN$", "BZ$", "CA$", "CL$", "CO$", "CV$", "HK$",
    "MX$", "NT$", "NZ$", "TT$", "RD$", "WS$", "US$", "$U", "C$", "J$", "N$", "R$", "S$", "T$",
    "Z$", "A$", "SY£", "LB£", "CN¥", "GH₵", "$", "€", "£", "zł", "Zł", "Kč", "₽", "¥", "￥",
    "฿", "դր.", "դր", "₦", "₴", "₱", "৳", "₭", "₪", "﷼", "៛", "₩", "₫", "₡", "টকা", "ƒ", "₲",
    "؋", "₮", "नेरू", "₨", "₶", "₾", "֏", "ރ", "৲", "૱", "௹", "₠", "₢", "₣", "₤", "₧", "₯",
    "₰", "₳", "₷", "₸", "₹", "₺", "₼", "₿", "ℳ", "₵", "元", "円", "ر.ق.\u{200f}", "د.ك.\u{200f}",
    "د.ع.\u{200f}", "ر.ع.\u{200f}", "ر.ي.\u{200f}", "ر.س.\u{200f}", "د.ج.\u{200f}",
    "د.م.\u{200f}", "د.إ.\u{200f}", "د.ت.\u{200f}", "د.ل.\u{200f}", "ل.س.\u{200f}",
    "د.ب.\u{200f}", "د.أ.\u{200f}", "ج.م.\u{200f}", "ل.ل.\u{200f}", " تومان", "تومان", "ریال",
    "EUR", "euro", "eur", "CHF", "DKK", "Rp", "lei", "руб.", "руб", "грн.", "грн", "дин.",
    "Dinara", "динар", "лв.", "лв", "р.", "тңг", "тңг.", "ман.",
];

/// The `which`-th field of a row: 0 the code, 1 the international symbol,
/// 2 the native symbol.
pub open spec fn row_field(row: (&'static str, &'static str, &'static str), which: int) -> Seq<char> {
    if which == 0 {
        row.0@
    } else if which == 1 {
        row.1@
    } else {
        row.2@
    }
}

/// One column of `CURRENCIES`, in row order.
pub open spec fn table_column(which: int) -> Seq<Seq<char>> {
    CURRENCIES@.map_values(|row: (&'static str, &'static str, &'static str)| row_field(row, which))
}

/// The ISO 4217 codes, in row order.
pub open spec fn code_column() -> Seq<Seq<char>> {
    table_column(0)
}

/// The international symbols, in row order.
pub open spec fn symbol_column() -> Seq<Seq<char>> {
    table_column(1)
}

/// The native symbols, in row order.
pub open spec fn national_column() -> Seq<Seq<char>> {
    table_column(2)
}

/// The `which`-th column of `CURRENCIES`, in row order.
pub fn column(which: usize) -> (r: Vec<&'static str>)
    requires
        which < 3,
    ensures
        str_views(r@) == table_column(which as int),
{
    let table: &[(&'static str, &'static str, &'static str)] = &CURRENCIES;
    let mut out: Vec<&'static str> = Vec::new();
    let mut k: usize = 0;
    while k < table.len()
        invariant
            which < 3,
            table@ == CURRENCIES@,
            k <= table@.len(),
            out@.len() == k,
            forall|j: int| 0 <= j < k ==> (#[trigger] out@[j])@ == row_field(table@[j], which as int),
        decreases table@.len() - k,
    {
        let row = table[k];
        let s = if which == 0 {
            row.0
        } else if which == 1 {
            row.1
        } else {
            row.2
        };
        out.push(s);
        k = k + 1;
    }
    assert(str_views(out@) =~= table_column(which as int));
    out
}

/// The distinct entries of `items` in code-point order.
fn sorted_distinct(items: &Vec<&'static str>) -> (r: Vec<&'static str>)
    ensures
        sorted_by(str_views(r@), false),
        forall|x: Seq<char>| #[trigger] str_views(r@).contains(x) <==> str_views(items@).contains(x),
{
    let ghost iv = str_views(items@);
    let mut out_strs: Vec<&'static str> = Vec::new();
    let mut out_chars: Vec<Vec<char>> = Vec::new();
    assert(str_views(out_strs@) =~= vec_views(out_chars@));
    let mut k: usize = 0;
    while k < items.len()
        invariant
            iv == str_views(items@),
            k <= items@.len(),
            str_views(out_strs@) == vec_views(out_chars@),
            sorted_by(vec_views(out_chars@), false),
            forall|x: Seq<char>| #[trigger]
                vec_views(out_chars@).contains(x) <==> iv.take(k as int).contains(x),
        decreases items@.len() - k,
    {
        let s = items[k];
        insert_sorted(&mut out_strs, &mut out_chars, s, false);
        k = k + 1;
        proof {
            assert(iv.take(k as int) =~= iv.take(k - 1).push(s@));
            assert forall|x: Seq<char>| #[trigger]
                vec_views(out_chars@).contains(x) <==> iv.take(k as int).contains(x) by {
                if x == s@ {
                    assert(iv.take(k as int)[k - 1] == x);
                }
                if iv.take(k as int).contains(x) && x != s@ {
                    let j = choose|j: int| 0 <= j < k && #[trigger] iv.take(k as int)[j] == x;
                    assert(iv.take(k - 1)[j] == x);
                }
                if iv.take(k - 1).contains(x) {
                    let j = choose|j: int| 0 <= j < k - 1 && #[trigger] iv.take(k - 1)[j] == x;
                    assert(iv.take(k as int)[j] == x);
                }
            }
        }
    }
    assert(iv.take(items@.len() as int) =~= iv);
    out_strs
}

/// The ISO 4217 codes, in table order.
pub fn currency_codes() -> (r: Vec<&'static str>)
    ensures
        str_views(r@) == code_column(),
{
    column(0)
}

/// The distinct international symbols, in code-point order.
pub fn currency_symbols() -> (r: Vec<&'static str>)
    ensures
        sorted_by(str_views(r@), false),
        forall|x: Seq<char>| #[trigger] str_views(r@).contains(x) <==> symbol_column().contains(x),
{
    sorted_distinct(&column(1))
}

/// The distinct native symbols, in code-point order.
pub fn currency_national_symbols() -> (r: Vec<&'static str>)
    ensures
        sorted_by(str_views(r@), false),
        forall|x: Seq<char>| #[trigger] str_views(r@).contains(x) <==> national_column().contains(x),
{
    sorted_distinct(&column(2))
}

} // verus!
