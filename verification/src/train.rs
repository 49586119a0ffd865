//! The checks and the early-stopping rule of training, apart from the
//! floating-point work that they steer.
use vstd::prelude::*;
use crate::error::Error;

verus! {

/// The integer settings of a training run: the tree depth, the number of
/// epochs per seed, the number of random seeds, and the early-stopping
/// patience.
#[derive(Debug, Clone, Copy, PartialEq, Eq)]
pub struct TrainingPlan {
    pub depth: usize,
    pub epochs: usize,
    pub seeds: usize,
    pub patience: usize,
}

impl TrainingPlan {
    /// The default plan for a tree of the given depth: 5000 epochs, 5 seeds,
    /// a patience of 500 epochs. A depth of 0 is refused.
    pub fn new(depth: usize) -> (r: Result<TrainingPlan, Error>)
        ensures
            match r {
                Ok(p) => depth >= 1 && p == (TrainingPlan {
                    depth,
                    epochs: 5000,
                    seeds: 5,
                    patience: 500,
                }),
                Err(e) => depth == 0 && e == Error::InvalidDepth(depth),
            },
    {
        if depth == 0 {
            return Err(Error::InvalidDepth(depth));
        }
        Ok(TrainingPlan { depth, epochs: 5_000, seeds: 5, patience: 500 })
    }

    /// The same plan with `epochs` epochs per seed.
    pub fn epochs(self, epochs: usize) -> (r: TrainingPlan)
        ensures
            r == (TrainingPlan { epochs, ..self }),
    {
        TrainingPlan { epochs, ..self }
    }

    /// The same plan with `seeds` random initializations.
    pub fn seeds(self, seeds: usize) -> (r: TrainingPlan)
        ensures
            r == (TrainingPlan { seeds, ..self }),
    {
        TrainingPlan { seeds, ..self }
    }

    pub fn depth(&self) -> (d: usize)
        ensures
            d == self.depth,
    {
        self.depth
    }
}

/// Training data of `xs_len` inputs and `ys_len` targets is accepted when
/// neither is empty and they pair up one to one.
pub fn validate_dataset(xs_len: usize, ys_len: usize) -> (r: Result<(), Error>)
    ensures
        r == (if xs_len == 0 || ys_len == 0 {
            Err(Error::EmptyDataset)
        } else if xs_len != ys_len {
            Err(Error::LengthMismatch { xs: xs_len, ys: ys_len })
        } else {
            Ok(())
        }),
{
    if xs_len == 0 || ys_len == 0 {
        return Err(Error::EmptyDataset);
    }
    if xs_len != ys_len {
        return Err(Error::LengthMismatch { xs: xs_len, ys: ys_len });
    }
    Ok(())
}

/// Patience-based early stopping: training stops once `patience` epochs in
/// a row have not improved the best loss by more than the tolerance.
#[derive(Debug, Clone, Copy, PartialEq, Eq)]
pub struct EarlyStopping {
    /// Epochs without improvement that end the training.
    pub patience: usize,
    /// Epochs since the last improvement.
    pub counter: usize,
}

impl EarlyStopping {
    pub fn new(patience: usize) -> (r: EarlyStopping)
        ensures
            r.patience == patience,
            r.counter == 0,
    {
        EarlyStopping { patience, counter: 0 }
    }

    /// Record one epoch: `improved` tells whether its loss beat the best
    /// loss so far by more than the tolerance. Returns whether to stop.
    pub fn observe(&mut self, improved: bool) -> (stop: bool)
        requires
            improved || old(self).counter < usize::MAX,
        ensures
            final(self).patience == old(self).patience,
            improved ==> final(self).counter == 0 && !stop,
            !improved ==> final(self).counter == old(self).counter + 1,
            !improved ==> stop == (old(self).counter + 1 >= old(self).patience),
    {
        if improved {
            self.counter = 0;
            false
        } else {
            self.counter = self.counter + 1;
            self.counter >= self.patience
        }
    }
}

/// The epoch loop of one training run: at most `epochs` epochs, cut short by
/// early stopping.
pub struct EpochLoop {
    epochs: usize,
    trained: usize,
    stopping: EarlyStopping,
}

impl View for EpochLoop {
    /// `(epochs, epochs trained so far, the early-stopping state)`.
    type V = (nat, nat, EarlyStopping);

    closed spec fn view(&self) -> (nat, nat, EarlyStopping) {
        (self.epochs as nat, self.trained as nat, self.stopping)
    }
}

impl EpochLoop {
    #[verifier::type_invariant]
    spec fn inv(self) -> bool {
        &&& self.trained <= self.epochs
        &&& self.stopping.counter <= self.trained
    }

    /// A run of at most `epochs` epochs that stops after `patience` epochs
    /// in a row without improvement.
    pub fn new(epochs: usize, patience: usize) -> (r: EpochLoop)
        ensures
            r@ == (epochs as nat, 0nat, EarlyStopping { patience, counter: 0 }),
    {
        EpochLoop { epochs, trained: 0, stopping: EarlyStopping::new(patience) }
    }

    /// The index of the next epoch, if the configured number of epochs is
    /// not yet reached.
    pub fn next_epoch(&self) -> (r: Option<usize>)
        ensures
            r == (if self@.1 < self@.0 {
                Some(self@.1 as usize)
            } else {
                None
            }),
    {
        if self.trained < self.epochs {
            Some(self.trained)
        } else {
            None
        }
    }

    /// Number of epochs trained so far.
    pub fn trained(&self) -> (n: usize)
        ensures
            n == self@.1,
            n <= self@.0,
    {
        proof {
            use_type_invariant(self);
        }
        self.trained
    }

    /// Record the epoch just trained; `improved` tells whether its loss beat
    /// the best loss so far by more than the tolerance. Returns whether the
    /// run stops early.
    pub fn finish_epoch(&mut self, improved: bool) -> (stop: bool)
        requires
            old(self)@.1 < old(self)@.0,
        ensures
            final(self)@.0 == old(self)@.0,
            final(self)@.1 == old(self)@.1 + 1,
            final(self)@.2.patience == old(self)@.2.patience,
            improved ==> final(self)@.2.counter == 0 && !stop,
            !improved ==> final(self)@.2.counter == old(self)@.2.counter + 1,
            !improved ==> stop == (old(self)@.2.counter + 1 >= old(self)@.2.patience),
    {
        proof {
            use_type_invariant(&*self);
        }
        let mut stopping = self.stopping;
        let stop = stopping.observe(improved);
        self.trained = self.trained + 1;
        self.stopping = stopping;
        stop
    }
}

} // verus!
