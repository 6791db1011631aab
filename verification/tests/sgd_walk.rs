use rand::rngs::StdRng;
use rand::{Rng, SeedableRng};
use sgd_linreg::dataset::load_csv;
use sgd_linreg::plan::{Step, TrainingPlan};
use sgd_linreg::shape::{check_dataset, check_dimension};

struct Line {
    weight: f64,
    bias: f64,
    lr: f64,
}

impl Line {
    fn predict(&self, x: f64) -> f64 {
        self.weight * x + self.bias
    }

    fn loss(&self, xs: &[f64], ys: &[f64]) -> f64 {
        let sum: f64 = xs
            .iter()
            .zip(ys.iter())
            .map(|(x, y)| (y - self.predict(*x)).powi(2))
            .sum();
        sum / xs.len() as f64
    }

    /// Updates the line for each row that the plan says to visit.
    fn train(&mut self, xs: &[f64], ys: &[f64], epochs: usize, rng: &mut StdRng) -> usize {
        let mut plan = TrainingPlan::new(xs.len(), epochs);
        let mut updates = 0;
        loop {
            match plan.advance(rng) {
                Step::Visit { row } => {
                    let error = ys[row] - self.predict(xs[row]);
                    self.weight += self.lr * 2.0 * error * xs[row];
                    self.bias += self.lr * 2.0 * error;
                    updates += 1;
                }
                Step::EpochEnd { .. } => {}
                Step::Done => return updates,
            }
        }
    }
}

#[test]
fn training_along_the_plan_reduces_the_loss() {
    let mut rng = StdRng::seed_from_u64(17);
    let xs: Vec<f64> = (0..40).map(|i| i as f64 / 40.0).collect();
    let ys: Vec<f64> = xs
        .iter()
        .map(|x| 3.0 * x + 2.0 + rng.gen_range(-0.01..0.01))
        .collect();
    let mut line = Line {
        weight: rng.gen_range(-0.1..0.1),
        bias: rng.gen_range(-0.1..0.1),
        lr: 0.01,
    };
    let before = line.loss(&xs, &ys);
    let updates = line.train(&xs, &ys, 500, &mut rng);
    let after = line.loss(&xs, &ys);
    assert_eq!(updates, 500 * 40);
    assert!(after * 10.0 <= before, "loss went from {} to {}", before, after);
    assert!((line.weight - 3.0).abs() < 0.1);
    assert!((line.bias - 2.0).abs() < 0.1);
}

#[test]
fn training_on_an_empty_dataset_leaves_the_model_as_it_was() {
    let mut rng = StdRng::seed_from_u64(23);
    let mut line = Line {
        weight: 0.25,
        bias: -0.5,
        lr: 0.01,
    };
    for epochs in [0, 1, 7, 100, 1000] {
        let updates = line.train(&[], &[], epochs, &mut rng);
        assert_eq!(updates, 0);
        assert_eq!(line.weight, 0.25);
        assert_eq!(line.bias, -0.5);
    }
}

#[test]
fn cells_are_read_by_the_standard_parser() {
    let rows = load_csv(b"1.5, -2e3 ,.25\n+7,1E-2,inf\n").unwrap();
    let numbers: Vec<Vec<f64>> = rows
        .iter()
        .map(|row| {
            row.features
                .iter()
                .chain(std::iter::once(&row.target))
                .map(|cell| std::str::from_utf8(cell).unwrap().parse::<f64>().unwrap())
                .collect()
        })
        .collect();
    assert_eq!(
        numbers,
        vec![vec![1.5, -2000.0, 0.25], vec![7.0, 0.01, f64::INFINITY]]
    );
}

#[test]
fn dataset_from_text_fits_a_model_of_its_width() {
    let rows = load_csv(b"1,2,3\n4,5,6\n7,8,9\n").unwrap();
    let widths: Vec<usize> = rows.iter().map(|row| row.features.len()).collect();
    assert_eq!(widths, vec![2, 2, 2]);
    assert_eq!(check_dataset(&widths, rows.len(), 2), Ok(()));
    assert!(check_dataset(&widths, rows.len(), 3).is_err());
    assert_eq!(check_dimension(2, rows[0].features.len()), Ok(()));
}
