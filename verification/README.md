# eml-sr

Trainable EML (Exp-Minus-Log) trees for gradient-based symbolic regression.
Every internal node computes `eml(x, y) = exp(x) - ln(y)`; each node input is
a softmax mixture of the constant `1`, the variable `x` and a child output.

- `src/` is the verified library (Verus): the parameter layout of a tree
  (`params`, `layout`), snapping one-hot selectors into an expression and
  simplifying it (`expr`, `layout`), and the integer side of training
  (`train`: settings, data checks, early stopping). Expression constants are
  held as `f64` bit patterns.
- `app/` is the command-line tool and everything that computes with floats
  or candle tensors: evaluation and display of expressions, random
  initialization, the forward pass, the hardening loss and the AdamW loop.
