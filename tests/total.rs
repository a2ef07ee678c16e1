use invoice::date::Date;
use invoice::decimal::Decimal;
use invoice::invoice::{template_data, Invoice, InvoiceInfo, Payment, Product, Subject};

fn subject(name: &str) -> Subject {
    Subject {
        name: name.to_string(),
        street: "ul. Prosta 1".to_string(),
        region: "00-001 Warszawa".to_string(),
        nip: "1234567890".to_string(),
    }
}

fn product(price: Decimal, quantity: Decimal) -> Product {
    Product {
        name: "Service".to_string(),
        unit: "h".to_string(),
        quantity,
        price,
        pkd: "62.01.Z".to_string(),
    }
}

fn invoice_with(products: Vec<Product>) -> Invoice {
    Invoice {
        invoice: InvoiceInfo {
            id: "1/2024".to_string(),
            created: Date::from_ymd(2024, 3, 5).unwrap(),
            done: "Warszawa".to_string(),
        },
        buyer: subject("Buyer"),
        seller: subject("Seller"),
        payment: Payment {
            date: Date::from_ymd(2024, 3, 19).unwrap(),
            account: "00 0000 0000".to_string(),
            bank: "Bank".to_string(),
        },
        products,
    }
}

fn dec(mantissa: i128, scale: u32) -> Decimal {
    Decimal { mantissa, scale }
}

#[test]
fn one_product_total() {
    let inv = invoice_with(vec![product(dec(10000, 2), dec(2, 0))]);
    let sum = inv.sum().unwrap();
    assert_eq!(sum.to_string(), "200.00");
    let data = template_data(inv).unwrap();
    assert_eq!(data.sum, sum);
}

#[test]
fn empty_invoice_total_is_zero() {
    let inv = invoice_with(vec![]);
    assert_eq!(inv.sum(), Some(Decimal::zero()));
}

#[test]
fn total_of_several_lines() {
    let inv = invoice_with(vec![
        product(dec(1999, 2), dec(3, 0)),
        product(dec(5, 1), dec(15, 1)),
        product(dec(100, 0), dec(0, 0)),
    ]);
    let sum = inv.sum().unwrap();
    assert_eq!(sum.to_string(), "60.72");
}

#[test]
fn total_ignores_order() {
    let lines = vec![
        product(dec(1999, 2), dec(3, 0)),
        product(dec(5, 1), dec(15, 1)),
        product(dec(12345, 4), dec(7, 0)),
    ];
    let forward = invoice_with(lines.clone()).sum().unwrap();
    let mut reversed_lines = lines.clone();
    reversed_lines.reverse();
    let backward = invoice_with(reversed_lines).sum().unwrap();
    let rotated = invoice_with(vec![lines[1].clone(), lines[2].clone(), lines[0].clone()]).sum().unwrap();
    assert_eq!(forward.to_fixed(4), backward.to_fixed(4));
    assert_eq!(forward.to_fixed(4), rotated.to_fixed(4));
    assert_eq!(forward.to_string(), "69.3615");
}

#[test]
fn total_refuses_rounding() {
    let inv = invoice_with(vec![product(dec(1, 20), dec(1, 20))]);
    assert_eq!(inv.sum(), None);
    assert!(template_data(inv).is_none());
    let max = dec(79228162514264337593543950335, 0);
    let inv = invoice_with(vec![product(max, dec(1, 0)), product(dec(1, 0), dec(1, 0))]);
    assert_eq!(inv.sum(), None);
}

#[test]
fn total_lowers_scale_when_exact_sum_fits() {
    let big = dec(70000000000000000000000000000, 0);
    let inv = invoice_with(vec![product(big, dec(1, 0)), product(dec(10, 1), dec(1, 0))]);
    let sum = inv.sum().unwrap();
    assert_eq!(sum.to_fixed(0), "70000000000000000000000000001");
}

#[test]
fn total_with_large_line_in_any_order() {
    let big = product(dec(70000000000000000000000000000, 0), dec(1, 0));
    let one = product(dec(10, 1), dec(1, 0));
    let minus_one = product(dec(-10, 1), dec(1, 0));
    let first = invoice_with(vec![big.clone(), one.clone(), minus_one.clone()]).sum().unwrap();
    let last = invoice_with(vec![one, minus_one, big]).sum().unwrap();
    assert_eq!(first.to_fixed(0), "70000000000000000000000000000");
    assert_eq!(last.to_fixed(0), "70000000000000000000000000000");
}

#[test]
fn total_of_concatenated_lists() {
    let a = vec![product(dec(1999, 2), dec(3, 0)), product(dec(5, 1), dec(15, 1))];
    let b = vec![product(dec(12345, 4), dec(7, 0))];
    let sa = invoice_with(a.clone()).sum().unwrap();
    let sb = invoice_with(b.clone()).sum().unwrap();
    let mut ab = a.clone();
    ab.extend(b);
    let sab = invoice_with(ab).sum().unwrap();
    assert_eq!(sa.checked_add(&sb).unwrap().to_fixed(4), sab.to_fixed(4));
}

#[test]
fn total_keeps_the_scale() {
    let p1 = product(dec(110, 2), dec(3, 0));
    let p2 = product(dec(5, 2), dec(2, 0));
    let forward = invoice_with(vec![p1.clone(), p2.clone()]).sum().unwrap();
    let backward = invoice_with(vec![p2, p1]).sum().unwrap();
    assert_eq!(forward.to_string(), "3.40");
    assert_eq!(backward.to_string(), "3.40");
}

#[test]
fn total_with_large_exact_product() {
    let inv = invoice_with(vec![product(dec(33, 1), dec(3000000000000000000000000000, 0))]);
    assert_eq!(inv.sum().unwrap().to_string(), "9900000000000000000000000000");
}

#[test]
fn order_can_decide_whether_a_partial_total_fits() {
    let max = product(dec(79228162514264337593543950335, 0), dec(1, 0));
    let one = product(dec(1, 0), dec(1, 0));
    let minus_one = product(dec(-1, 0), dec(1, 0));
    assert_eq!(invoice_with(vec![max.clone(), one.clone(), minus_one.clone()]).sum(), None);
    let sum = invoice_with(vec![one, minus_one, max]).sum().unwrap();
    assert_eq!(sum.to_string(), "79228162514264337593543950335");
}
