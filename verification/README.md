# rsomics-het-tests

Breusch-Pagan (Koenker robust variant) and White Lagrange-multiplier tests for
heteroscedasticity on OLS residuals.

- `src/` is the verified library: the input grammar (`text`), the assembly of
  parsed input into a residual vector and a rectangular design, the combined
  layout's split and the shape checks (`io`), White's auxiliary-design layout
  and its laws (`white`), the degrees-of-freedom bookkeeping (`ols`) and the
  choice of input layout (`cli`), and the law that the combined and separate
  layouts read the same (`layouts`). Values are generic, so the library holds no
  floating point.
- `app/` is the command-line program around it: argument handling, reading
  files and stdin, turning fields into `f64`, the auxiliary OLS fit, the χ²
  and F tail probabilities, and output.
- `tests/` exercises the library on concrete inputs.
